//! A Bloom filter over strings: a fixed row of bits, probed at several
//! slots derived from a hash of the string's bytes. Inserting sets the
//! probed bits; a membership query tests them, so an inserted value is
//! always found again, while an absent one may collide and be reported
//! present. The hash is the standard library's default hasher, which
//! behaves the same for every hasher built fresh.

use std::collections::hash_map::DefaultHasher;
use std::hash::Hasher;
use vstd::prelude::*;
use vstd::std_specs::hash::DefaultHasherAdditionalSpecFns;
use vstd::string::StringSliceAdditionalSpecFns;
use vstd::wrapping::u64_specs;

verus! {

pub struct BloomFilter {
    bits: Vec<bool>,
    hash_fn_count: usize,
}

/// The base hash of a byte string: what one freshly built default
/// hasher yields after a single write of those bytes.
pub open spec fn base_hash(bytes: Seq<u8>) -> u64 {
    DefaultHasher::spec_finish(seq![bytes])
}

/// The slot that probe number `i` targets in a row of `len` bits: the
/// double-hashing scheme `h1 + i * h2` with wrapping arithmetic; both
/// base hashes coincide here, since both hashers start fresh.
pub open spec fn probe_slot(bytes: Seq<u8>, i: int, len: int) -> int
    recommends
        len > 0,
{
    u64_specs::wrapping_add(
        base_hash(bytes),
        u64_specs::wrapping_mul(i as u64, base_hash(bytes)),
    ) as int % len
}

/// Whether every one of the `count` probes for `bytes` hits a set bit.
pub open spec fn all_probes_set(bits: Seq<bool>, count: int, bytes: Seq<u8>) -> bool {
    forall|i: int| 0 <= i < count ==> bits[probe_slot(bytes, i, bits.len() as int)]
}

impl BloomFilter {
    /// The row of bits.
    pub closed spec fn bits_view(self) -> Seq<bool> {
        self.bits@
    }

    /// How many slots each value probes.
    pub closed spec fn probe_count(self) -> int {
        self.hash_fn_count as int
    }

    /// The row is never empty, so the probe arithmetic has a modulus.
    pub closed spec fn well_formed(self) -> bool {
        self.bits@.len() > 0
    }

    /// Builds a filter with `bits_size` clear bits, probing each value
    /// at `hash_fn_count` slots. The sizing from a capacity and a
    /// tolerated error rate is the caller's affair.
    pub fn new(bits_size: usize, hash_fn_count: usize) -> (r: Self)
        requires
            bits_size > 0,
        ensures
            r.well_formed(),
            r.bits_view() =~= Seq::new(bits_size as nat, |i: int| false),
            r.probe_count() == hash_fn_count,
    {
        let bits: Vec<bool> = vec![false; bits_size];
        BloomFilter { bits, hash_fn_count }
    }

    fn cal_hash(&self, value: &str) -> (r: (u64, u64))
        ensures
            r.0 == base_hash(value.spec_bytes()),
            r.1 == r.0,
    {
        let mut hash1 = DefaultHasher::new();
        let mut hash2 = DefaultHasher::new();
        hash1.write(value.as_bytes());
        hash2.write(value.as_bytes());
        proof {
            assert(hash1@ =~= seq![value.spec_bytes()]);
            assert(hash2@ =~= seq![value.spec_bytes()]);
        }
        (hash1.finish(), hash2.finish())
    }

    fn get_index(&self, hash_tuple: (u64, u64), fn_i: usize) -> (r: usize)
        requires
            self.well_formed(),
            hash_tuple.1 == hash_tuple.0,
        ensures
            r == u64_specs::wrapping_add(
                hash_tuple.0,
                u64_specs::wrapping_mul(fn_i as u64, hash_tuple.0),
            ) as int % self.bits_view().len() as int,
            r < self.bits_view().len(),
    {
        let combined = hash_tuple.0.wrapping_add((fn_i as u64).wrapping_mul(hash_tuple.1));
        (combined % (self.bits.len() as u64)) as usize
    }

    /// Sets the bit at every slot the value's probes target; every
    /// other bit keeps its state.
    pub fn insert(&mut self, value: &str)
        requires
            old(self).well_formed(),
        ensures
            final(self).well_formed(),
            final(self).probe_count() == old(self).probe_count(),
            final(self).bits_view().len() == old(self).bits_view().len(),
            forall|j: int|
                0 <= j < old(self).bits_view().len() ==> final(self).bits_view()[j] == (old(
                    self,
                ).bits_view()[j] || exists|i: int|
                    0 <= i < old(self).probe_count() && #[trigger] probe_slot(
                        value.spec_bytes(),
                        i,
                        old(self).bits_view().len() as int,
                    ) == j),
    {
        let hash_tuple = self.cal_hash(value);
        let ghost len = self.bits@.len() as int;
        let ghost bytes = value.spec_bytes();
        let mut fn_i: usize = 0;
        while fn_i < self.hash_fn_count
            invariant
                self.bits@.len() == old(self).bits@.len(),
                self.bits@.len() > 0,
                self.hash_fn_count == old(self).hash_fn_count,
                len == self.bits@.len() as int,
                bytes == value.spec_bytes(),
                hash_tuple.0 == base_hash(bytes),
                hash_tuple.1 == hash_tuple.0,
                fn_i <= self.hash_fn_count,
                forall|j: int|
                    0 <= j < len ==> self.bits@[j] == (old(self).bits@[j] || exists|i: int|
                        0 <= i < fn_i && #[trigger] probe_slot(bytes, i, len) == j),
            decreases self.hash_fn_count - fn_i,
        {
            let ghost bits0 = self.bits@;
            let index = self.get_index(hash_tuple, fn_i);
            proof {
                assert(index as int == probe_slot(bytes, fn_i as int, len));
            }
            self.bits.set(index, true);
            fn_i = fn_i + 1;
            proof {
                assert forall|j: int|
                    0 <= j < len implies self.bits@[j] == (old(self).bits@[j] || exists|i: int|
                        0 <= i < fn_i && #[trigger] probe_slot(bytes, i, len) == j) by {
                    if j == index as int {
                        assert(probe_slot(bytes, fn_i - 1, len) == j);
                    } else {
                        assert(self.bits@[j] == bits0[j]);
                        if exists|i: int| 0 <= i < fn_i && #[trigger] probe_slot(bytes, i, len)
                            == j {
                            let i = choose|i: int|
                                0 <= i < fn_i && #[trigger] probe_slot(bytes, i, len) == j;
                            assert(i != fn_i - 1);
                        }
                    }
                }
            }
        }
    }

    /// Tells whether every probed slot for the value is set: certainly
    /// true once the value was inserted, possibly true for a colliding
    /// stranger, and the filter itself is never changed.
    pub fn contains(&self, value: &str) -> (r: bool)
        requires
            self.well_formed(),
        ensures
            r == all_probes_set(self.bits_view(), self.probe_count(), value.spec_bytes()),
    {
        let hash_tuple = self.cal_hash(value);
        let ghost len = self.bits@.len() as int;
        let ghost bytes = value.spec_bytes();
        let mut fn_i: usize = 0;
        while fn_i < self.hash_fn_count
            invariant
                self.well_formed(),
                len == self.bits@.len() as int,
                bytes == value.spec_bytes(),
                hash_tuple.0 == base_hash(bytes),
                hash_tuple.1 == hash_tuple.0,
                fn_i <= self.hash_fn_count,
                forall|i: int| 0 <= i < fn_i ==> self.bits@[#[trigger] probe_slot(bytes, i, len)],
            decreases self.hash_fn_count - fn_i,
        {
            let index = self.get_index(hash_tuple, fn_i);
            proof {
                assert(index as int == probe_slot(bytes, fn_i as int, len));
            }
            if !self.bits[index] {
                proof {
                    assert(!self.bits@[probe_slot(bytes, fn_i as int, len)]);
                }
                return false;
            }
            fn_i = fn_i + 1;
        }
        true
    }

    /// A value never vanishes: whatever bits an insertion of `bytes`
    /// set, a query for the same bytes afterwards finds every one of
    /// its probed slots set — there are no false negatives.
    pub proof fn lemma_no_false_negative(pre: BloomFilter, post: BloomFilter, bytes: Seq<u8>)
        requires
            pre.well_formed(),
            post.probe_count() == pre.probe_count(),
            post.bits_view().len() == pre.bits_view().len(),
            forall|j: int|
                0 <= j < pre.bits_view().len() ==> post.bits_view()[j] == (pre.bits_view()[j]
                    || exists|i: int|
                    0 <= i < pre.probe_count() && #[trigger] probe_slot(
                        bytes,
                        i,
                        pre.bits_view().len() as int,
                    ) == j),
        ensures
            all_probes_set(post.bits_view(), post.probe_count(), bytes),
    {
        let len = pre.bits_view().len() as int;
        assert forall|i: int| 0 <= i < post.probe_count() implies post.bits_view()[probe_slot(
            bytes,
            i,
            len,
        )] by {
            let j = probe_slot(bytes, i, len);
            assert(0 <= j < len);
            assert(probe_slot(bytes, i, len) == j);
        }
    }
}

} // verus!
