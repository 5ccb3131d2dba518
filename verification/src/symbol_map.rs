use std::collections::HashMap;
use vstd::prelude::*;
use vstd::bytes::{spec_u32_from_le_bytes, spec_u32_to_le_bytes, u32_from_le_bytes, u32_to_le_bytes};
use vstd::slice::slice_to_vec;
use vstd::utf8::encode_utf8;
use crate::wire::{append_bytes, decode_entries, insert_all, pairs_bytes, lemma_encoding_header, lemma_decode_symbol_map_sound, entry_bytes, decode_symbol_map, encoding_in_order, entries_bytes, is_encoding_of, is_listing, lemma_entries_bytes_push, u32_at, Decoded};
use crate::error::invalid_data_error;
use crate::text::string_from_utf8;
use vstd::std_specs::iter::IteratorSpec;

verus! {

broadcast use vstd::std_specs::hash::group_hash_axioms;

/// Maps instrument ids to their tickers.
#[derive(Debug, Clone, Default, PartialEq, Eq)]
pub struct SymbolMap {
    pub map: HashMap<u32, String>,
}

impl View for SymbolMap {
    type V = Map<u32, Seq<char>>;

    open spec fn view(&self) -> Map<u32, Seq<char>> {
        self.map@.map_values(|s: String| s@)
    }
}

/// After `add_instrument(ticker, id)`, `get_instrument_ticker(id)` gives `ticker`,
/// and every other id keeps what it had.
pub proof fn lemma_get_after_add(m: Map<u32, Seq<char>>, ticker: Seq<char>, id: u32, other: u32)
    ensures
        m.insert(id, ticker).contains_key(id),
        m.insert(id, ticker)[id] == ticker,
        other != id ==> (m.insert(id, ticker).contains_key(other) == m.contains_key(other)),
        other != id && m.contains_key(other) ==> m.insert(id, ticker)[other] == m[other],
{
}

/// After `merge(other)`, an id that `other` holds has `other`'s ticker, any other
/// id keeps what it had, and no id appears that neither map held.
pub proof fn lemma_merge_entries(m: Map<u32, Seq<char>>, other: Map<u32, Seq<char>>, id: u32)
    ensures
        other.contains_key(id) ==> m.union_prefer_right(other).contains_key(id)
            && m.union_prefer_right(other)[id] == other[id],
        !other.contains_key(id) ==> (m.union_prefer_right(other).contains_key(id) == m.contains_key(id)),
        !other.contains_key(id) && m.contains_key(id) ==> m.union_prefer_right(other)[id] == m[id],
{
}

impl SymbolMap {
    /// An empty symbol map.
    pub fn new() -> (r: Self)
        ensures
            r@ == Map::<u32, Seq<char>>::empty(),
    {
        let r = Self { map: HashMap::new() };
        assert(r@ =~= Map::<u32, Seq<char>>::empty());
        r
    }

    /// Records `ticker` as the ticker of instrument `id`, replacing any earlier ticker.
    pub fn add_instrument(&mut self, ticker: &str, id: u32)
        ensures
            final(self)@ == old(self)@.insert(id, ticker@),
    {
        broadcast use vstd::string::group_string_axioms;

        self.map.insert(id, ticker.to_string());
        assert(self@ =~= old(self)@.insert(id, ticker@));
    }

    /// The ticker of instrument `id`, if one is recorded.
    pub fn get_instrument_ticker(&self, id: u32) -> (r: Option<String>)
        ensures
            match r {
                Some(t) => self@.contains_key(id) && t@ == self@[id],
                None => !self@.contains_key(id),
            },
    {
        match self.map.get(&id) {
            Some(t) => Some(t.clone()),
            None => None,
        }
    }

    /// Merges `other` into this map; where both hold an id, `other`'s ticker is kept.
    pub fn merge(&mut self, other: &SymbolMap)
        ensures
            final(self)@ == old(self)@.union_prefer_right(other@),
    {
        let ghost pairs = vstd::std_specs::hash::spec_hash_map_iter(&other.map).remaining();
        let ghost mut seen: Set<u32> = Set::empty();
        assert(self@ =~= old(self)@.union_prefer_right(other@.restrict(seen)));
        for (key, value) in it: other.map.iter()
            invariant
                it.seq() == pairs,
                self@ == old(self)@.union_prefer_right(other@.restrict(seen)),
                forall|k: u32| #[trigger] seen.contains(k) ==> other@.contains_key(k),
                forall|i: int| 0 <= i < it.index() ==> seen.contains(*#[trigger] pairs[i].0),
        {
            assert(*key == *pairs[it.index()].0);
            assert(other.map@.contains_key(*key) && other.map@[*key] == *value);
            let ghost before = self@;
            self.map.insert(*key, value.clone());
            assert(self@ =~= before.insert(*key, value@));
            assert(other@[*key] == value@);
            proof {
                seen = seen.insert(*key);
            }
            assert(self@ =~= old(self)@.union_prefer_right(other@.restrict(seen)));
        }
        proof {
            assert forall|k: u32| #[trigger] other@.contains_key(k) implies seen.contains(k) by {
                assert(other.map@.contains_key(k));
                assert(pairs.contains((&k, &other.map@[k])));
                let i = choose|i: int| 0 <= i < pairs.len() && pairs[i] == (&k, &other.map@[k]);
                assert(seen.contains(*pairs[i].0));
            }
            assert(other@.restrict(seen) =~= other@);
        }
    }

    /// Encodes the map: the number of entries, then each entry's id, the length
    /// of its ticker's UTF-8 bytes and those bytes, all integers as little-endian
    /// `u32`.  The entries come in the order the hash map yields them, which may
    /// differ between processes; the count and each length are cut to 32 bits.
    pub fn serialize(&self) -> (r: Vec<u8>)
        ensures
            is_encoding_of(self@, r@),
            r@.len() >= 4,
            spec_u32_from_le_bytes(r@.subrange(0, 4)) == self@.len() as u32,
    {
        let mut bytes: Vec<u8> = Vec::new();
        let map_len = self.map.len() as u32;
        let hdr = u32_to_le_bytes(map_len);
        append_bytes(&mut bytes, hdr.as_slice());
        let ghost mut keys: Seq<u32> = Seq::empty();
        let ghost pairs = vstd::std_specs::hash::spec_hash_map_iter(&self.map).remaining();
        assert(bytes@ =~= spec_u32_to_le_bytes(map_len) + entries_bytes(self@, keys));
        for (key, value) in it: self.map.iter()
            invariant
                bytes@ == spec_u32_to_le_bytes(map_len) + entries_bytes(self@, keys),
                keys.len() == it.index(),
                it.seq() == pairs,
                forall|i: int| 0 <= i < it.index() ==> keys[i] == *it.seq()[i].0,
        {
            assert(*key == *it.seq()[it.index()].0);
            let kb = u32_to_le_bytes(*key);
            append_bytes(&mut bytes, kb.as_slice());
            let vb = value.as_str().as_bytes();
            let value_len = vb.len() as u32;
            let lb = u32_to_le_bytes(value_len);
            append_bytes(&mut bytes, lb.as_slice());
            append_bytes(&mut bytes, vb);
            proof {
                lemma_entries_bytes_push(self@, keys, *key);
                keys = keys.push(*key);
            }
            assert(bytes@ =~= spec_u32_to_le_bytes(map_len) + entries_bytes(self@, keys));
        }
        assert(keys.len() == pairs.len());
        proof {
            assert(self@.dom() =~= self.map@.dom());
            assert forall|i: int, j: int| 0 <= i < keys.len() && 0 <= j < keys.len() && i != j
                implies keys[i] != keys[j] by {
                if keys[i] == keys[j] {
                    assert(pairs[i] == pairs[j]);
                }
            }
            assert forall|k: u32| #[trigger] self@.dom().contains(k) implies keys.contains(k) by {
                assert(self.map@.contains_key(k));
                assert(pairs.contains((&k, &self.map@[k])));
                let i = choose|i: int| 0 <= i < pairs.len() && pairs[i] == (&k, &self.map@[k]);
                assert(keys[i] == k);
            }
            assert(keys.to_set() =~= self@.dom());
            assert(is_listing(keys, self@.dom()) && bytes@ == encoding_in_order(self@, keys));
            lemma_encoding_header(self@, keys);
        }
        bytes
    }

    /// Whether `deserialize` can read a symbol map from `bytes` at `offset`
    /// without running off the end of `bytes`: every field it reads, up to the
    /// end of the map or the first ticker that is not UTF-8, lies inside `bytes`.
    pub fn is_readable(bytes: &[u8], offset: usize) -> (r: bool)
        ensures
            r == !(decode_symbol_map(bytes@, offset as int) is OutOfBounds),
            r ==> offset + 4 <= bytes@.len(),
    {
        let n = bytes.len();
        if offset > n || n - offset < 4 {
            return false;
        }
        let count = u32_from_le_bytes(&bytes[offset..offset + 4]);
        let mut off = offset + 4;
        let mut i: u32 = 0;
        let ghost mut acc = Map::<u32, Seq<char>>::empty();
        while i < count
            invariant
                n == bytes@.len(),
                i <= count,
                off <= n,
                (decode_symbol_map(bytes@, offset as int) is OutOfBounds)
                    == (decode_entries(bytes@, off as int, (count - i) as nat, acc) is OutOfBounds),
            decreases count - i,
        {
            if n - off < 8 {
                return false;
            }
            let ghost off0 = off as int;
            let len = u32_from_le_bytes(&bytes[off + 4..off + 8]) as usize;
            assert(len == u32_at(bytes@, off0 + 4));
            if n - off - 8 < len {
                return false;
            }
            let raw = slice_to_vec(&bytes[off + 8..off + 8 + len]);
            assert(raw@ == bytes@.subrange(off0 + 8, off0 + 8 + len));
            match string_from_utf8(raw) {
                Ok(text) => {
                    proof {
                        acc = acc.insert(u32_at(bytes@, off0), text@);
                    }
                },
                Err(_) => {
                    return true;
                },
            }
            off = off + 8 + len;
            i = i + 1;
        }
        true
    }

    /// Reads a map encoded as `serialize` writes it from `bytes` at `*offset`,
    /// and moves `*offset` past what it read.  An id that occurs twice keeps
    /// its last ticker.  A ticker that is not UTF-8 is an `io::Error` of kind
    /// `InvalidData`, with `*offset` left at the start of its bytes.  Every field read must lie inside `bytes`
    /// (see `is_readable`).
    pub fn deserialize(bytes: &[u8], offset: &mut usize) -> (r: std::io::Result<Self>)
        requires
            !(decode_symbol_map(bytes@, *old(offset) as int) is OutOfBounds),
        ensures
            match decode_symbol_map(bytes@, *old(offset) as int) {
                Decoded::Entries(m, end) => r matches Ok(s) && s@ == m && *final(offset) == end,
                Decoded::InvalidText(at) => r is Err && *final(offset) == at,
                Decoded::OutOfBounds => false,
            },
            r is Ok ==> exists|pairs: Seq<(u32, Seq<char>)>|
                {
                    &&& pairs.len() == spec_u32_from_le_bytes(
                        bytes@.subrange(*old(offset) as int, *old(offset) + 4),
                    )
                    &&& *old(offset) + 4 <= *final(offset) <= bytes@.len()
                    &&& bytes@.subrange(*old(offset) + 4, *final(offset) as int) == pairs_bytes(pairs)
                    &&& r->Ok_0@ == insert_all(Map::empty(), pairs)
                },
    {
        let ghost whole = decode_symbol_map(bytes@, *offset as int);
        proof {
            lemma_decode_symbol_map_sound(bytes@, *offset as int);
        }
        let n = bytes.len();
        let map_len = u32_from_le_bytes(&bytes[*offset..*offset + 4]);
        *offset = *offset + 4;
        let mut map: HashMap<u32, String> = HashMap::with_capacity(map_len as usize);
        let mut i: u32 = 0;
        assert(map@.map_values(|s: String| s@) =~= Map::<u32, Seq<char>>::empty());
        while i < map_len
            invariant
                i <= map_len,
                n == bytes@.len(),
                whole == decode_symbol_map(bytes@, *old(offset) as int),
                decode_entries(bytes@, *offset as int, (map_len - i) as nat, map@.map_values(|s: String| s@)) == whole,
                !(whole is OutOfBounds),
            decreases map_len - i,
        {
            let ghost off0 = *offset as int;
            let key = u32_from_le_bytes(&bytes[*offset..*offset + 4]);
            *offset = *offset + 4;
            let value_len = u32_from_le_bytes(&bytes[*offset..*offset + 4]) as usize;
            *offset = *offset + 4;
            assert(value_len == u32_at(bytes@, off0 + 4));
            let raw = slice_to_vec(&bytes[*offset..*offset + value_len]);
            assert(raw@ == bytes@.subrange(off0 + 8, off0 + 8 + value_len));
            let value = match string_from_utf8(raw) {
                Ok(v) => v,
                Err(e) => {
                    assert(whole == Decoded::InvalidText(off0 + 8));
                    return Err(invalid_data_error(e));
                }
            };
            *offset = *offset + value_len;
            let ghost before = map@.map_values(|s: String| s@);
            map.insert(key, value);
            assert(map@.map_values(|s: String| s@) =~= before.insert(key, value@));
            i = i + 1;
        }
        Ok(SymbolMap { map })
    }
}

} // verus!
