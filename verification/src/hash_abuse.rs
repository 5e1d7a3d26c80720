//! Content addressing by hash.
//!
//! A value's identity key is the hash of its canonical wire bytes. Two
//! values with the same key are treated as interchangeable: equality *is*
//! key equality. This is a deliberate, documented policy — content
//! addressing with an accepted collision risk — not an accident, and the
//! delta codec additionally verifies stored content on every key hit, so a
//! collision can cost bytes but never correctness.

use vstd::prelude::*;

use std::collections::HashMap;

use crate::frame::DrawItem;
use crate::frame::ItemView;
use crate::wire::enc_item;
use crate::wire::write_item;

verus! {

broadcast use vstd::std_specs::hash::group_hash_axioms;

/// The offset basis of the 64-bit FNV-1a hash.
pub const FNV_OFFSET: u64 = 0xcbf29ce484222325;

/// The prime of the 64-bit FNV-1a hash.
pub const FNV_PRIME: u64 = 0x100000001b3;

/// One FNV-1a step: fold one byte into the state.
pub open spec fn fnv_step(state: u64, b: u8) -> u64 {
    ((((state ^ (b as u64)) as int) * (FNV_PRIME as int)) % 0x10000000000000000) as u64
}

/// FNV-1a over a byte sequence, starting from `state`.
pub open spec fn fnv_acc(state: u64, s: Seq<u8>) -> u64
    decreases s.len(),
{
    if s.len() == 0 {
        state
    } else {
        fnv_acc(fnv_step(state, s[0]), s.skip(1))
    }
}

/// The 64-bit FNV-1a hash of a byte sequence.
pub open spec fn fnv64(s: Seq<u8>) -> u64 {
    fnv_acc(FNV_OFFSET, s)
}

/// The identity key of a draw item: the hash of its canonical wire bytes.
pub open spec fn item_key(it: ItemView) -> u64 {
    fnv64(enc_item(it))
}

/// Folding one more byte continues the accumulated hash.
pub proof fn lemma_fnv_acc_push(state: u64, s: Seq<u8>, b: u8)
    ensures
        fnv_acc(state, s.push(b)) == fnv_step(fnv_acc(state, s), b),
    decreases s.len(),
{
    let sp = s.push(b);
    if s.len() == 0 {
        assert(sp[0] == b);
        assert(sp.skip(1) =~= Seq::<u8>::empty());
        assert(fnv_acc(state, sp) == fnv_acc(fnv_step(state, b), sp.skip(1)));
        assert(fnv_acc(fnv_step(state, b), sp.skip(1)) == fnv_step(state, b));
        assert(fnv_acc(state, s) == state);
    } else {
        assert(sp[0] == s[0]);
        assert(sp.skip(1) =~= s.skip(1).push(b));
        lemma_fnv_acc_push(fnv_step(state, s[0]), s.skip(1), b);
        assert(fnv_acc(state, sp) == fnv_acc(fnv_step(state, s[0]), sp.skip(1)));
        assert(fnv_acc(fnv_step(state, s[0]), sp.skip(1)) == fnv_step(
            fnv_acc(fnv_step(state, s[0]), s.skip(1)),
            b,
        ));
        assert(fnv_acc(state, s) == fnv_acc(fnv_step(state, s[0]), s.skip(1)));
    }
}

/// One executable FNV-1a step.
fn fnv_step_exec(state: u64, b: u8) -> (r: u64)
    ensures
        r == fnv_step(state, b),
{
    let x: u64 = state ^ (b as u64);
    proof {
        assert((x as u128) * (FNV_PRIME as u128) <= (0xffffffffffffffffu128) * (
        FNV_PRIME as u128)) by (nonlinear_arith)
            requires
                x <= 0xffffffffffffffffu64,
        ;
    }
    let wide: u128 = (x as u128) * (FNV_PRIME as u128);
    (wide % 0x10000000000000000u128) as u64
}

/// A streaming hasher: bytes written into it accumulate an FNV-1a state.
pub struct HashWriter {
    /// The accumulated hash state.
    pub state: u64,
}

impl HashWriter {
    /// A fresh hasher, at the FNV-1a offset basis.
    pub fn new() -> (r: HashWriter)
        ensures
            r.state == FNV_OFFSET,
    {
        HashWriter { state: FNV_OFFSET }
    }

    /// Folds `buf` into the state, byte by byte.
    pub fn write(&mut self, buf: &[u8])
        ensures
            final(self).state == fnv_acc(old(self).state, buf@),
    {
        let ghost state0 = self.state;
        let mut i: usize = 0;
        while i < buf.len()
            invariant
                i <= buf@.len(),
                self.state == fnv_acc(state0, buf@.subrange(0, i as int)),
            decreases buf@.len() - i,
        {
            let ghost prefix = buf@.subrange(0, i as int);
            self.state = fnv_step_exec(self.state, buf[i]);
            i += 1;
            proof {
                lemma_fnv_acc_push(state0, prefix, buf@[i - 1]);
                assert(prefix.push(buf@[i - 1]) =~= buf@.subrange(0, i as int));
            }
        }
        proof {
            assert(buf@.subrange(0, buf@.len() as int) =~= buf@);
        }
    }

    /// Writing is synchronous; there is nothing to flush.
    pub fn flush(&mut self)
        ensures
            *final(self) == *old(self),
    {
    }

    /// The accumulated hash.
    pub fn finish(&self) -> (r: u64)
        ensures
            r == self.state,
    {
        self.state
    }
}

/// The content key of a draw item: FNV-1a over its canonical wire bytes.
pub fn key_of_item(it: &DrawItem) -> (r: u64)
    ensures
        r == item_key(it@),
{
    let mut buf: Vec<u8> = Vec::new();
    write_item(&mut buf, it);
    let mut w = HashWriter::new();
    w.write(buf.as_slice());
    w.finish()
}

/// A value hashed by its serialized content rather than by identity.
pub struct HashBySerialize<T>(pub T);

impl HashBySerialize<DrawItem> {
    /// The item's content key: FNV-1a over its canonical wire bytes.
    pub fn hash(&self) -> (r: u64)
        ensures
            r == item_key(self.0@),
    {
        key_of_item(&self.0)
    }
}

/// A value compared for equality by its content hash alone: the
/// collision-accepting shortcut that content addressing rests on.
pub struct EqByHash<T>(pub T);

impl EqByHash<HashBySerialize<DrawItem>> {
    /// Whether both wrapped items carry the same content key.
    pub fn eq(&self, other: &EqByHash<HashBySerialize<DrawItem>>) -> (r: bool)
        ensures
            r == (item_key(self.0.0@) == item_key(other.0.0@)),
    {
        let hash_self = self.0.hash();
        let hash_other = other.0.hash();
        hash_self == hash_other
    }
}

/// A content-addressed cache: values keyed by the hash of their defining
/// content's bytes. There is no eviction; the owning component resets the
/// whole cache when its baseline resets.
pub struct ContentCache<V> {
    map: HashMap<u64, V>,
}

impl<V: Copy> ContentCache<V> {
    /// The cache's contents, as a map from content key to value.
    pub closed spec fn view(&self) -> Map<u64, V> {
        self.map@
    }

    /// An empty cache.
    pub fn new() -> (r: ContentCache<V>)
        ensures
            r@ == Map::<u64, V>::empty(),
    {
        ContentCache { map: HashMap::new() }
    }

    /// Drops every entry.
    pub fn reset(&mut self)
        ensures
            final(self)@ == Map::<u64, V>::empty(),
    {
        self.map = HashMap::new();
    }

    /// How many entries the cache holds.
    pub fn len(&self) -> (r: usize)
        ensures
            r == self@.dom().len(),
    {
        self.map.len()
    }

    /// Looks up `key_bytes`'s content and, on a miss, builds the value once
    /// and stores it. On a hit the stored value is returned as is and the
    /// builder is never run: identical content always yields the cached
    /// value.
    pub fn get_or_compute<F: FnOnce() -> V>(&mut self, key_bytes: &[u8], builder: F) -> (r: V)
        requires
            builder.requires(()),
        ensures
            ({
                let k = fnv64(key_bytes@);
                if old(self)@.contains_key(k) {
                    &&& r == old(self)@[k]
                    &&& final(self)@ == old(self)@
                } else {
                    &&& builder.ensures((), r)
                    &&& final(self)@ == old(self)@.insert(k, r)
                }
            }),
    {
        let mut w = HashWriter::new();
        w.write(key_bytes);
        let k = w.finish();
        match self.map.get(&k) {
            Some(v) => *v,
            None => {
                let v = builder();
                self.map.insert(k, v);
                v
            },
        }
    }
}

} // verus!
