//! The membership filter: a bit array addressed by a family of hashes of the
//! key. It answers "definitely not present" or "maybe present" and never
//! reports a false negative, which lets a table reader skip the record scan
//! for most absent keys.

use vstd::prelude::*;

use crate::bytes::{le32_val, lemma_le32_roundtrip, push_bytes, push_u32_le, read_u32_le, u32_le};

verus! {

/// Offset basis of the 64-bit FNV-1a hash.
pub const FNV_OFFSET: u64 = 0xcbf29ce484222325;

/// Prime of the 64-bit FNV-1a hash.
pub const FNV_PRIME: u64 = 0x100000001b3;

/// One step of FNV-1a: fold a byte into the running hash.
pub open spec fn fnv_step(h: u64, b: u8) -> u64 {
    (h ^ (b as u64)).wrapping_mul(FNV_PRIME)
}

/// FNV-1a over a byte string, starting from the running hash `h`.
pub open spec fn fnv(h: u64, data: Seq<u8>) -> u64
    decreases data.len(),
{
    if data.len() == 0 {
        h
    } else {
        fnv_step(fnv(h, data.drop_last()), data.last())
    }
}

/// A bit-avalanching finisher: spreads every input bit over the whole word.
pub open spec fn mix64(z0: u64) -> u64 {
    let z1 = (z0 ^ (z0 >> 30)).wrapping_mul(0xBF58476D1CE4E5B9);
    let z2 = (z1 ^ (z1 >> 27)).wrapping_mul(0x94D049BB133111EB);
    z2 ^ (z2 >> 31)
}

/// The probe hash of a key for probe index `i`: FNV-1a over the key bytes,
/// offset by a multiple of an odd constant per probe, then finished so the
/// probes address independent bits. The hash depends only on its arguments,
/// so it can serve as part of the table file format.
pub open spec fn hash_spec(key: Seq<u8>, i: u64) -> u64 {
    mix64(fnv(FNV_OFFSET, key).wrapping_add(i.wrapping_mul(0x9E3779B97F4A7C15)))
}

/// Whether bit `p` is set in a bit array stored least-significant-bit first.
pub open spec fn bit_at(bits: Seq<u8>, p: int) -> bool {
    (bits[p / 8] >> ((p % 8) as u8)) & 1u8 == 1u8
}

/// A probabilistic set of byte strings, used to rule keys out before a table
/// lookup. False positives fall through to the sparse index; false negatives
/// cannot happen for keys that were added.
pub struct BloomFilter {
    bits: Vec<u8>,
    num_hashes: usize,
    num_bits: usize,
}

/// The serialised image of a filter: 32-bit hash count, 32-bit bit count, then
/// the raw bit bytes, all little-endian.
pub open spec fn filter_bytes(k: nat, m: nat, bits: Seq<u8>) -> Seq<u8> {
    u32_le(k as u32) + u32_le(m as u32) + bits
}

/// Whether a byte string is a well-formed serialised filter: a header of eight
/// bytes whose bit count matches the stored bit bytes exactly.
pub open spec fn filter_bytes_wf(data: Seq<u8>) -> bool {
    &&& data.len() >= 8
    &&& le32_val(data.subrange(4, 8)) == (data.len() - 8) * 8
}

/// What a serialised filter answers for a key, read off the raw bytes.
pub open spec fn filter_bytes_contains(data: Seq<u8>, key: Seq<u8>) -> bool {
    &&& le32_val(data.subrange(4, 8)) > 0
    &&& forall|i: int| 0 <= i < le32_val(data.subrange(0, 4)) ==> bit_at(
        data.skip(8),
        (#[trigger] hash_spec(key, i as u64)) as int % le32_val(data.subrange(4, 8)),
    )
}

proof fn lemma_set_bit(b: u8, sh: u8, sh2: u8)
    by (bit_vector)
    requires
        sh < 8,
        sh2 < 8,
    ensures
        ((b | (1u8 << sh)) >> sh) & 1u8 == 1u8,
        sh2 != sh ==> ((b | (1u8 << sh)) >> sh2) & 1u8 == (b >> sh2) & 1u8,
{
}

/// Folds a byte string into a running FNV-1a hash.
fn fnv_fold(h0: u64, data: &[u8]) -> (h: u64)
    ensures
        h == fnv(h0, data@),
{
    let mut h: u64 = h0;
    let mut j: usize = 0;
    while j < data.len()
        invariant
            0 <= j <= data@.len(),
            h == fnv(h0, data@.take(j as int)),
        decreases data@.len() - j,
    {
        proof {
            assert(data@.take(j as int + 1).drop_last() =~= data@.take(j as int));
            assert(data@.take(j as int + 1).last() == data@[j as int]);
        }
        h = (h ^ (data[j] as u64)).wrapping_mul(FNV_PRIME);
        j = j + 1;
    }
    proof {
        assert(data@.take(data@.len() as int) =~= data@);
    }
    h
}

proof fn lemma_zero_bit(sh: u8)
    by (bit_vector)
    requires
        sh < 8,
    ensures
        (0u8 >> sh) & 1u8 == 0u8,
{
}

impl BloomFilter {
    /// The number of probe hashes.
    pub closed spec fn k_spec(self) -> nat {
        self.num_hashes as nat
    }

    /// The number of addressable bits.
    pub closed spec fn m_spec(self) -> nat {
        self.num_bits as nat
    }

    /// The stored bit bytes.
    pub closed spec fn bits_spec(self) -> Seq<u8> {
        self.bits@
    }

    /// Well-formed: the bit count matches the storage and both header fields
    /// fit their 32-bit serialised form.
    pub open spec fn wf(self) -> bool {
        &&& self.m_spec() == self.bits_spec().len() * 8
        &&& self.m_spec() <= u32::MAX
        &&& self.k_spec() <= u32::MAX
    }

    /// Whether the filter answers "maybe present" for a key.
    pub open spec fn contains_spec(self, key: Seq<u8>) -> bool {
        &&& self.m_spec() > 0
        &&& forall|i: int| 0 <= i < self.k_spec() ==> bit_at(
            self.bits_spec(),
            (#[trigger] hash_spec(key, i as u64)) as int % self.m_spec() as int,
        )
    }

    /// Creates a filter sized for the expected number of keys at a
    /// one-percent false-positive target: the optimal-size formulas give
    /// 9.586 bits and 7 hashes per key, computed here in fixed point.
    pub fn new(num_items: usize) -> (r: BloomFilter)
        requires
            1 <= num_items <= 400_000_000,
        ensures
            r.wf(),
            r.m_spec() == 8 * (((num_items * 9586 + 999) / 1000 + 7) / 8),
            r.m_spec() > 0,
            r.k_spec() == 7,
            forall|key: Seq<u8>| !r.contains_spec(key),
    {
        let m: u64 = ((num_items as u64) * 9586 + 999) / 1000;
        let num_bytes: usize = ((m + 7) / 8) as usize;
        let bits: Vec<u8> = vec![0u8; num_bytes];
        let r = BloomFilter { bits, num_hashes: 7, num_bits: num_bytes * 8 };
        proof {
            assert forall|key: Seq<u8>| !r.contains_spec(key) by {
                if r.contains_spec(key) {
                    let p = hash_spec(key, 0u64) as int % r.m_spec() as int;
                    assert(bit_at(r.bits_spec(), p));
                    lemma_zero_bit((p % 8) as u8);
                }
            }
        }
        r
    }

    /// The probe hash for the key and probe index; a pure function of its
    /// arguments.
    fn hash(&self, key: &[u8], i: u64) -> (h: u64)
        ensures
            h == hash_spec(key@, i),
    {
        let hk = fnv_fold(FNV_OFFSET, key);
        let z0 = hk.wrapping_add(i.wrapping_mul(0x9E3779B97F4A7C15));
        let z1 = (z0 ^ (z0 >> 30u64)).wrapping_mul(0xBF58476D1CE4E5B9);
        let z2 = (z1 ^ (z1 >> 27u64)).wrapping_mul(0x94D049BB133111EB);
        z2 ^ (z2 >> 31u64)
    }

    /// Adds a key: sets the bit of every probe hash. Every key answered
    /// "maybe present" before is still answered so, and the added key is from
    /// now on.
    pub fn add(&mut self, key: &[u8])
        requires
            old(self).wf(),
        ensures
            final(self).wf(),
            final(self).m_spec() == old(self).m_spec(),
            final(self).k_spec() == old(self).k_spec(),
            final(self).bits_spec().len() == old(self).bits_spec().len(),
            forall|k2: Seq<u8>|
                old(self).contains_spec(k2) ==> final(self).contains_spec(k2),
            old(self).m_spec() > 0 ==> final(self).contains_spec(key@),
    {
        if self.num_bits == 0 {
            return ;
        }
        let ghost orig = *self;
        let mut i: usize = 0;
        while i < self.num_hashes
            invariant
                self.wf(),
                self.num_bits == orig.m_spec(),
                self.num_hashes == orig.k_spec(),
                self.num_bits > 0,
                self.bits@.len() == orig.bits_spec().len(),
                forall|p: int|
                    0 <= p < self.m_spec() && bit_at(orig.bits_spec(), p) ==> bit_at(
                        self.bits@,
                        p,
                    ),
                forall|j: int|
                    0 <= j < i ==> bit_at(
                        self.bits@,
                        (#[trigger] hash_spec(key@, j as u64)) as int % self.m_spec() as int,
                    ),
            decreases self.num_hashes - i,
        {
            let h = self.hash(key, i as u64);
            let pos: u64 = h % (self.num_bits as u64);
            let idx: usize = (pos / 8) as usize;
            let sh: u8 = (pos % 8) as u8;
            let ghost before = self.bits@;
            let b = self.bits[idx];
            self.bits[idx] = b | (1u8 << sh);
            proof {
                let p = pos as int;
                assert(p / 8 == idx as int && p % 8 == sh as int);
                lemma_set_bit(b, sh, sh);
                assert forall|q: int|
                    0 <= q < self.m_spec() && bit_at(before, q) implies bit_at(
                    self.bits@,
                    q,
                ) by {
                    if q / 8 == idx as int {
                        lemma_set_bit(b, sh, (q % 8) as u8);
                    }
                }
                assert forall|j: int|
                    0 <= j < i + 1 implies bit_at(
                    self.bits@,
                    (#[trigger] hash_spec(key@, j as u64)) as int % self.m_spec() as int,
                ) by {
                    if j < i {
                        assert(bit_at(
                            before,
                            hash_spec(key@, j as u64) as int % self.m_spec() as int,
                        ));
                    } else {
                        assert(hash_spec(key@, j as u64) as int % self.m_spec() as int == p);
                        assert(bit_at(self.bits@, p));
                    }
                }
            }
            i = i + 1;
        }
        proof {
            assert forall|k2: Seq<u8>| orig.contains_spec(k2) implies self.contains_spec(k2) by {
                assert forall|j: int| 0 <= j < self.k_spec() implies bit_at(
                    self.bits@,
                    (#[trigger] hash_spec(k2, j as u64)) as int % self.m_spec() as int,
                ) by {
                    let q = hash_spec(k2, j as u64) as int % self.m_spec() as int;
                    assert(bit_at(orig.bits_spec(), q));
                    assert(0 <= q < self.m_spec());
                }
            }
        }
    }

    /// Answers whether the key might be present; `false` is definite.
    pub fn contains(&self, key: &[u8]) -> (r: bool)
        requires
            self.wf(),
        ensures
            r == self.contains_spec(key@),
    {
        if self.num_bits == 0 {
            return false;
        }
        let mut i: usize = 0;
        while i < self.num_hashes
            invariant
                self.wf(),
                self.num_bits > 0,
                forall|j: int|
                    0 <= j < i ==> bit_at(
                        self.bits@,
                        (#[trigger] hash_spec(key@, j as u64)) as int % self.m_spec() as int,
                    ),
            decreases self.num_hashes - i,
        {
            let h = self.hash(key, i as u64);
            let pos: u64 = h % (self.num_bits as u64);
            let idx: usize = (pos / 8) as usize;
            let sh: u8 = (pos % 8) as u8;
            if (self.bits[idx] >> sh) & 1u8 != 1u8 {
                proof {
                    assert(pos as int / 8 == idx as int && pos as int % 8 == sh as int);
                    assert(!bit_at(
                        self.bits@,
                        hash_spec(key@, i as u64) as int % self.m_spec() as int,
                    ));
                }
                return false;
            }
            proof {
                assert(pos as int / 8 == idx as int && pos as int % 8 == sh as int);
            }
            i = i + 1;
        }
        true
    }

    /// Serialises the filter: hash count, bit count, raw bit bytes.
    pub fn serialize(&self) -> (r: Vec<u8>)
        requires
            self.wf(),
        ensures
            r@ == filter_bytes(self.k_spec(), self.m_spec(), self.bits_spec()),
            filter_bytes_wf(r@),
            forall|key: Seq<u8>| filter_bytes_contains(r@, key) == self.contains_spec(key),
    {
        let mut r: Vec<u8> = Vec::new();
        push_u32_le(&mut r, self.num_hashes as u32);
        push_u32_le(&mut r, self.num_bits as u32);
        push_bytes(&mut r, self.bits.as_slice());
        proof {
            assert(r@ =~= filter_bytes(self.k_spec(), self.m_spec(), self.bits_spec()));
            lemma_filter_bytes_fields(self.k_spec(), self.m_spec(), self.bits_spec());
        }
        r
    }

    /// Reads a filter back from its serialised image; `None` when the header
    /// is missing or disagrees with the stored bit bytes.
    pub fn deserialize(data: &[u8]) -> (r: Option<BloomFilter>)
        ensures
            match r {
                Some(bf) => {
                    &&& filter_bytes_wf(data@)
                    &&& bf.wf()
                    &&& filter_bytes(bf.k_spec(), bf.m_spec(), bf.bits_spec()) == data@
                    &&& forall|key: Seq<u8>|
                        filter_bytes_contains(data@, key) == bf.contains_spec(key)
                },
                None => !filter_bytes_wf(data@),
            },
    {
        if data.len() < 8 {
            return None;
        }
        let k32 = read_u32_le(data, 0);
        let m32 = read_u32_le(data, 4);
        let bits_len: usize = data.len() - 8;
        if bits_len > 0xFFFFFFFFusize / 8 || (m32 as u64) != (bits_len as u64) * 8 {
            proof {
                if filter_bytes_wf(data@) {
                    assert(le32_val(data@.subrange(4, 8)) == m32);
                }
            }
            return None;
        }
        let mut bits: Vec<u8> = Vec::new();
        let mut i: usize = 8;
        while i < data.len()
            invariant
                8 <= i <= data@.len(),
                bits@ == data@.subrange(8, i as int),
            decreases data@.len() - i,
        {
            bits.push(data[i]);
            proof {
                assert(data@.subrange(8, i as int).push(data@[i as int]) =~= data@.subrange(
                    8,
                    i as int + 1,
                ));
            }
            i = i + 1;
        }
        let bf = BloomFilter { bits, num_hashes: k32 as usize, num_bits: m32 as usize };
        proof {
            assert(bf.bits_spec() =~= data@.skip(8));
            assert(filter_bytes(bf.k_spec(), bf.m_spec(), bf.bits_spec()) =~= data@) by {
                assert(u32_le(k32) == data@.subrange(0, 4));
                assert(u32_le(m32) == data@.subrange(4, 8));
            }
            lemma_filter_bytes_fields(bf.k_spec(), bf.m_spec(), bf.bits_spec());
        }
        Some(bf)
    }
}

/// The serialised form of a filter decodes to the fields it was built from,
/// so the byte-level and the structure-level answers agree.
proof fn lemma_filter_bytes_fields(k: nat, m: nat, bits: Seq<u8>)
    requires
        k <= u32::MAX,
        m <= u32::MAX,
        m == bits.len() * 8,
    ensures
        filter_bytes_wf(filter_bytes(k, m, bits)),
        le32_val(filter_bytes(k, m, bits).subrange(0, 4)) == k,
        le32_val(filter_bytes(k, m, bits).subrange(4, 8)) == m,
        filter_bytes(k, m, bits).skip(8) == bits,
{
    let data = filter_bytes(k, m, bits);
    assert(data.subrange(0, 4) =~= u32_le(k as u32));
    assert(data.subrange(4, 8) =~= u32_le(m as u32));
    assert(data.skip(8) =~= bits);
    lemma_le32_roundtrip(k as u32);
    lemma_le32_roundtrip(m as u32);
}

} // verus!
