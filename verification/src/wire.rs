//! The byte layout of a symbol map: a little-endian `u32` count, then for each
//! entry its `u32` id, the `u32` length of its ticker's UTF-8 bytes, and those bytes.
use vstd::prelude::*;
use vstd::bytes::{spec_u32_from_le_bytes, spec_u32_to_le_bytes, lemma_auto_spec_u32_to_from_le_bytes};
use vstd::utf8::{decode_utf8, encode_utf8, valid_utf8, encode_utf8_valid_utf8, encode_utf8_decode_utf8, decode_utf8_encode_utf8};

verus! {

/// The bytes of one entry: id, ticker length, ticker.
pub open spec fn entry_bytes(key: u32, ticker: Seq<char>) -> Seq<u8> {
    spec_u32_to_le_bytes(key) + spec_u32_to_le_bytes(encode_utf8(ticker).len() as u32)
        + encode_utf8(ticker)
}

/// The bytes of the entries of `m` for `keys`, in that order.
pub open spec fn entries_bytes(m: Map<u32, Seq<char>>, keys: Seq<u32>) -> Seq<u8>
    decreases keys.len(),
{
    if keys.len() == 0 {
        Seq::empty()
    } else {
        entry_bytes(keys[0], m[keys[0]]) + entries_bytes(m, keys.drop_first())
    }
}

/// `keys` lists every key of `dom` exactly once.
pub open spec fn is_listing(keys: Seq<u32>, dom: Set<u32>) -> bool {
    keys.no_duplicates() && keys.to_set() == dom
}

/// The encoding of `m` when its entries are written in the order of `keys`.
pub open spec fn encoding_in_order(m: Map<u32, Seq<char>>, keys: Seq<u32>) -> Seq<u8> {
    spec_u32_to_le_bytes(m.len() as u32) + entries_bytes(m, keys)
}

/// `bytes` encodes `m`, its entries in some order.
pub open spec fn is_encoding_of(m: Map<u32, Seq<char>>, bytes: Seq<u8>) -> bool {
    exists|keys: Seq<u32>| is_listing(keys, m.dom()) && bytes == encoding_in_order(m, keys)
}

/// `m` fits the layout: its size and the byte length of each ticker fit in a `u32`.
pub open spec fn fits_layout(m: Map<u32, Seq<char>>) -> bool {
    &&& m.len() <= u32::MAX
    &&& forall|k: u32| m.contains_key(k) ==> encode_utf8(#[trigger] m[k]).len() <= u32::MAX
}

/// What reading a symbol map from a byte buffer comes to.
pub enum Decoded {
    /// The entries read, and the offset just past them.
    Entries(Map<u32, Seq<char>>, int),
    /// A ticker whose bytes are not UTF-8; the offset at which those bytes start.
    InvalidText(int),
    /// The buffer ends before a field that has to be read.
    OutOfBounds,
}

/// The little-endian `u32` stored at `off`.
pub open spec fn u32_at(bytes: Seq<u8>, off: int) -> u32 {
    spec_u32_from_le_bytes(bytes.subrange(off, off + 4))
}

/// Reads `count` entries starting at `off`, inserting each into `acc` in turn.
pub open spec fn decode_entries(
    bytes: Seq<u8>,
    off: int,
    count: nat,
    acc: Map<u32, Seq<char>>,
) -> Decoded
    decreases count,
{
    if count == 0 {
        Decoded::Entries(acc, off)
    } else if off + 8 > bytes.len() {
        Decoded::OutOfBounds
    } else {
        let key = u32_at(bytes, off);
        let start = off + 8;
        let end = start + u32_at(bytes, off + 4);
        if end > bytes.len() {
            Decoded::OutOfBounds
        } else if !valid_utf8(bytes.subrange(start, end)) {
            Decoded::InvalidText(start)
        } else {
            decode_entries(
                bytes,
                end,
                (count - 1) as nat,
                acc.insert(key, decode_utf8(bytes.subrange(start, end))),
            )
        }
    }
}

/// Reads a symbol map, count first, from `bytes` at `off`.
pub open spec fn decode_symbol_map(bytes: Seq<u8>, off: int) -> Decoded {
    if off + 4 > bytes.len() {
        Decoded::OutOfBounds
    } else {
        decode_entries(bytes, off + 4, u32_at(bytes, off) as nat, Map::empty())
    }
}

pub proof fn lemma_entries_bytes_push(m: Map<u32, Seq<char>>, keys: Seq<u32>, k: u32)
    ensures
        entries_bytes(m, keys.push(k)) == entries_bytes(m, keys) + entry_bytes(k, m[k]),
    decreases keys.len(),
{
    if keys.len() == 0 {
        assert(keys.push(k).drop_first() =~= Seq::<u32>::empty());
        assert(entries_bytes(m, Seq::<u32>::empty()) == Seq::<u8>::empty());
        assert(entries_bytes(m, keys.push(k)) =~= entries_bytes(m, keys) + entry_bytes(k, m[k]));
    } else {
        assert(keys.push(k).drop_first() =~= keys.drop_first().push(k));
        lemma_entries_bytes_push(m, keys.drop_first(), k);
        assert(entries_bytes(m, keys.push(k)) =~= entries_bytes(m, keys) + entry_bytes(k, m[k]));
    }
}

/// Reading the entries of `m` for `keys` inserts them, in order, into `acc`.
proof fn lemma_decode_entries(
    m: Map<u32, Seq<char>>,
    keys: Seq<u32>,
    prefix: Seq<u8>,
    suffix: Seq<u8>,
    acc: Map<u32, Seq<char>>,
)
    requires
        keys.no_duplicates(),
        forall|i: int| 0 <= i < keys.len() ==> m.contains_key(#[trigger] keys[i]),
        forall|k: u32| m.contains_key(k) ==> encode_utf8(#[trigger] m[k]).len() <= u32::MAX,
    ensures
        decode_entries(prefix + entries_bytes(m, keys) + suffix, prefix.len() as int, keys.len(), acc)
            == Decoded::Entries(
            acc.union_prefer_right(m.restrict(keys.to_set())),
            (prefix.len() + entries_bytes(m, keys).len()) as int,
        ),
    decreases keys.len(),
{
    let bytes = prefix + entries_bytes(m, keys) + suffix;
    if keys.len() == 0 {
        assert(acc.union_prefer_right(m.restrict(keys.to_set())) =~= acc);
    } else {
        let k = keys[0];
        let rest = keys.drop_first();
        let t = m[k];
        let eb = entry_bytes(k, t);
        let tb = encode_utf8(t);
        let off = prefix.len() as int;
        proof_entry_layout(k, t);
        lemma_auto_spec_u32_to_from_le_bytes();
        encode_utf8_valid_utf8(t);
        encode_utf8_decode_utf8(t);
        assert(entries_bytes(m, keys) == eb + entries_bytes(m, rest));
        assert(bytes =~= (prefix + eb) + entries_bytes(m, rest) + suffix);
        assert(bytes.subrange(off, off + 4) =~= spec_u32_to_le_bytes(k));
        assert(bytes.subrange(off + 4, off + 8) =~= spec_u32_to_le_bytes(tb.len() as u32));
        assert(u32_at(bytes, off) == k);
        assert(u32_at(bytes, off + 4) == tb.len());
        assert(bytes.subrange(off + 8, off + 8 + tb.len()) =~= tb);
        assert forall|i: int| 0 <= i < rest.len() implies m.contains_key(#[trigger] rest[i]) by {
            assert(rest[i] == keys[i + 1]);
        }
        lemma_decode_entries(m, rest, prefix + eb, suffix, acc.insert(k, t));
        assert(!rest.contains(k)) by {
            if rest.contains(k) {
                let j = choose|j: int| 0 <= j < rest.len() && rest[j] == k;
                assert(keys[j + 1] == keys[0]);
            }
        }
        assert(keys.to_set() =~= rest.to_set().insert(k)) by {
            assert forall|x: u32| keys.to_set().contains(x) implies rest.to_set().insert(k).contains(x) by {
                let j = choose|j: int| 0 <= j < keys.len() && keys[j] == x;
                if j > 0 {
                    assert(rest[j - 1] == x);
                }
            }
            assert forall|x: u32| rest.to_set().insert(k).contains(x) implies keys.to_set().contains(x) by {
                if x != k {
                    let j = choose|j: int| 0 <= j < rest.len() && rest[j] == x;
                    assert(keys[j + 1] == x);
                } else {
                    assert(keys[0] == x);
                }
            }
        }
        assert(acc.insert(k, t).union_prefer_right(m.restrict(rest.to_set()))
            =~= acc.union_prefer_right(m.restrict(keys.to_set())));
        assert((prefix + eb).len() + entries_bytes(m, rest).len()
            == prefix.len() + entries_bytes(m, keys).len());
    }
}

proof fn proof_entry_layout(k: u32, t: Seq<char>)
    ensures
        entry_bytes(k, t).len() == 8 + encode_utf8(t).len(),
        entry_bytes(k, t).subrange(0, 4) == spec_u32_to_le_bytes(k),
        entry_bytes(k, t).subrange(4, 8) == spec_u32_to_le_bytes(encode_utf8(t).len() as u32),
        entry_bytes(k, t).subrange(8, 8 + encode_utf8(t).len() as int) == encode_utf8(t),
{
    lemma_auto_spec_u32_to_from_le_bytes();
    let a = spec_u32_to_le_bytes(k);
    let b = spec_u32_to_le_bytes(encode_utf8(t).len() as u32);
    let c = encode_utf8(t);
    assert((a + b + c).subrange(0, 4) =~= a);
    assert((a + b + c).subrange(4, 8) =~= b);
    assert((a + b + c).subrange(8, 8 + c.len() as int) =~= c);
}

/// Reading back an encoding of a map gives the map, and the offset just past the
/// encoding, whatever bytes surround it, as long as the map fits the layout.
pub proof fn lemma_decode_encoding(
    m: Map<u32, Seq<char>>,
    bytes: Seq<u8>,
    prefix: Seq<u8>,
    suffix: Seq<u8>,
)
    requires
        is_encoding_of(m, bytes),
        fits_layout(m),
    ensures
        decode_symbol_map(prefix + bytes + suffix, prefix.len() as int) == Decoded::Entries(
            m,
            (prefix.len() + bytes.len()) as int,
        ),
{
    let keys = choose|keys: Seq<u32>| is_listing(keys, m.dom()) && bytes == encoding_in_order(m, keys);
    keys.unique_seq_to_set();
    lemma_auto_spec_u32_to_from_le_bytes();
    let hdr = spec_u32_to_le_bytes(m.len() as u32);
    let all = prefix + bytes + suffix;
    let off = prefix.len() as int;
    assert(all =~= (prefix + hdr) + entries_bytes(m, keys) + suffix);
    assert(all.subrange(off, off + 4) =~= hdr);
    assert(u32_at(all, off) == m.len());
    assert(m.len() == keys.len());
    assert forall|i: int| 0 <= i < keys.len() implies m.contains_key(#[trigger] keys[i]) by {
        assert(keys.to_set().contains(keys[i]));
    }
    lemma_decode_entries(m, keys, prefix + hdr, suffix, Map::empty());
    assert(Map::<u32, Seq<char>>::empty().union_prefer_right(m.restrict(keys.to_set())) =~= m);
}

/// The bytes of the entries `pairs`, each an id and a ticker, written in order.
pub open spec fn pairs_bytes(pairs: Seq<(u32, Seq<char>)>) -> Seq<u8>
    decreases pairs.len(),
{
    if pairs.len() == 0 {
        Seq::empty()
    } else {
        entry_bytes(pairs[0].0, pairs[0].1) + pairs_bytes(pairs.drop_first())
    }
}

/// `acc` with the entries `pairs` inserted in order, a later id replacing an earlier one.
pub open spec fn insert_all(acc: Map<u32, Seq<char>>, pairs: Seq<(u32, Seq<char>)>) -> Map<
    u32,
    Seq<char>,
>
    decreases pairs.len(),
{
    if pairs.len() == 0 {
        acc
    } else {
        insert_all(acc.insert(pairs[0].0, pairs[0].1), pairs.drop_first())
    }
}

/// The first four bytes of an encoding hold the number of entries of the map.
pub proof fn lemma_encoding_header(m: Map<u32, Seq<char>>, keys: Seq<u32>)
    ensures
        encoding_in_order(m, keys).len() >= 4,
        encoding_in_order(m, keys).subrange(0, 4) == spec_u32_to_le_bytes(m.len() as u32),
        u32_at(encoding_in_order(m, keys), 0) == m.len() as u32,
{
    lemma_auto_spec_u32_to_from_le_bytes();
    let hdr = spec_u32_to_le_bytes(m.len() as u32);
    assert(encoding_in_order(m, keys).subrange(0, 4) =~= hdr);
}

/// An entry is read only when its id and length lie inside the buffer: with an
/// entry still to read and fewer than eight bytes left, reading runs off the end.
pub proof fn lemma_short_header_out_of_bounds(
    bytes: Seq<u8>,
    off: int,
    count: nat,
    acc: Map<u32, Seq<char>>,
)
    requires
        count > 0,
        off + 8 > bytes.len(),
    ensures
        decode_entries(bytes, off, count, acc) is OutOfBounds,
{
}

/// What reading `count` entries at `off` gives is `count` whole entries, written
/// as `pairs_bytes` writes them, lying in the buffer from `off` to the end offset,
/// and inserted into `acc` in order.
proof fn lemma_decode_entries_sound(bytes: Seq<u8>, off: int, count: nat, acc: Map<u32, Seq<char>>)
    requires
        0 <= off <= bytes.len(),
    ensures
        decode_entries(bytes, off, count, acc) matches Decoded::Entries(m, end) ==> exists|
            pairs: Seq<(u32, Seq<char>)>,
        |
            {
                &&& pairs.len() == count
                &&& off <= end <= bytes.len()
                &&& bytes.subrange(off, end) == pairs_bytes(pairs)
                &&& m == insert_all(acc, pairs)
            },
    decreases count,
{
    if count == 0 {
        let pairs = Seq::<(u32, Seq<char>)>::empty();
        assert(bytes.subrange(off, off) =~= pairs_bytes(pairs));
        assert(insert_all(acc, pairs) == acc);
    } else if off + 8 <= bytes.len() {
        let key = u32_at(bytes, off);
        let len = u32_at(bytes, off + 4);
        let start = off + 8;
        let e1 = start + len;
        if e1 <= bytes.len() && valid_utf8(bytes.subrange(start, e1)) {
            let tb = bytes.subrange(start, e1);
            let t = decode_utf8(tb);
            let acc2 = acc.insert(key, t);
            lemma_decode_entries_sound(bytes, e1, (count - 1) as nat, acc2);
            if let Decoded::Entries(m, end) = decode_entries(bytes, off, count, acc) {
                let rest = choose|pairs: Seq<(u32, Seq<char>)>|
                    {
                        &&& pairs.len() == count - 1
                        &&& e1 <= end <= bytes.len()
                        &&& bytes.subrange(e1, end) == pairs_bytes(pairs)
                        &&& m == insert_all(acc2, pairs)
                    };
                let pairs = seq![(key, t)] + rest;
                lemma_auto_spec_u32_to_from_le_bytes();
                decode_utf8_encode_utf8(tb);
                assert(bytes.subrange(off, off + 4).len() == 4);
                assert(bytes.subrange(off + 4, off + 8).len() == 4);
                assert(spec_u32_to_le_bytes(key) == bytes.subrange(off, off + 4));
                assert(encode_utf8(t).len() as u32 == len);
                assert(spec_u32_to_le_bytes(len) == bytes.subrange(off + 4, off + 8));
                assert(entry_bytes(key, t) =~= bytes.subrange(off, e1));
                assert(pairs.drop_first() =~= rest);
                assert(pairs[0] == (key, t));
                assert(bytes.subrange(off, end) =~= bytes.subrange(off, e1) + bytes.subrange(e1, end));
                assert(bytes.subrange(off, end) == pairs_bytes(pairs));
                assert(m == insert_all(acc, pairs));
            }
        }
    }
}

/// Reading a symbol map reads exactly the number of entries stored at the offset:
/// what it gives is the entries written after that count, each an id, the length
/// of its ticker and the ticker's UTF-8 bytes, all inside the buffer, inserted in
/// order into an empty map.
pub proof fn lemma_decode_symbol_map_sound(bytes: Seq<u8>, off: int)
    requires
        0 <= off,
    ensures
        decode_symbol_map(bytes, off) matches Decoded::Entries(m, end) ==> {
            &&& off + 4 <= bytes.len()
            &&& exists|pairs: Seq<(u32, Seq<char>)>|
                {
                    &&& pairs.len() == spec_u32_from_le_bytes(bytes.subrange(off, off + 4))
                    &&& off + 4 <= end <= bytes.len()
                    &&& bytes.subrange(off + 4, end) == pairs_bytes(pairs)
                    &&& m == insert_all(Map::empty(), pairs)
                }
        },
{
    if off + 4 <= bytes.len() {
        lemma_decode_entries_sound(bytes, off + 4, u32_at(bytes, off) as nat, Map::empty());
    }
}

/// Appends the bytes of `s` to `v`.
pub(crate) fn append_bytes(v: &mut Vec<u8>, s: &[u8])
    ensures
        final(v)@ == old(v)@ + s@,
{
    let mut i: usize = 0;
    while i < s.len()
        invariant
            i <= s@.len(),
            v@ == old(v)@ + s@.take(i as int),
        decreases s@.len() - i,
    {
        v.push(s[i]);
        i = i + 1;
        assert(s@.take(i as int) =~= s@.take(i - 1).push(s@[i - 1]));
    }
    assert(s@.take(i as int) =~= s@);
}

} // verus!
