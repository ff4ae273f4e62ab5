//! Byte-level building blocks shared by the whole store: the lexicographic
//! order on byte strings that every sorted structure uses, and the
//! little-endian integer framing of the on-disk formats.

use vstd::prelude::*;

verus! {

/// Strict lexicographic order on byte strings: `a` comes before `b` when, at
/// the first position where they differ, `a` has the smaller byte, or when `a`
/// is a proper prefix of `b`.
pub open spec fn lex_lt(a: Seq<u8>, b: Seq<u8>) -> bool
    decreases a.len(),
{
    if b.len() == 0 {
        false
    } else if a.len() == 0 {
        true
    } else if a[0] < b[0] {
        true
    } else if a[0] > b[0] {
        false
    } else {
        lex_lt(a.skip(1), b.skip(1))
    }
}

pub proof fn lemma_lex_irrefl(a: Seq<u8>)
    ensures
        !lex_lt(a, a),
    decreases a.len(),
{
    if a.len() > 0 {
        lemma_lex_irrefl(a.skip(1));
    }
}

pub proof fn lemma_lex_asym(a: Seq<u8>, b: Seq<u8>)
    ensures
        !(lex_lt(a, b) && lex_lt(b, a)),
    decreases a.len(),
{
    if a.len() > 0 && b.len() > 0 && a[0] == b[0] {
        lemma_lex_asym(a.skip(1), b.skip(1));
    }
}

pub proof fn lemma_lex_connex(a: Seq<u8>, b: Seq<u8>)
    ensures
        lex_lt(a, b) || lex_lt(b, a) || a == b,
    decreases a.len(),
{
    if a.len() > 0 && b.len() > 0 && a[0] == b[0] {
        lemma_lex_connex(a.skip(1), b.skip(1));
        if !lex_lt(a, b) && !lex_lt(b, a) {
            assert(a.skip(1) == b.skip(1));
            assert forall|j: int| 0 <= j < a.len() implies a[j] == b[j] by {
                if j > 0 {
                    assert(a[j] == a.skip(1)[j - 1]);
                    assert(b[j] == b.skip(1)[j - 1]);
                }
            }
            assert(a =~= b);
        }
    } else if a.len() == 0 && b.len() == 0 {
        assert(a =~= b);
    }
}

pub proof fn lemma_lex_trans(a: Seq<u8>, b: Seq<u8>, c: Seq<u8>)
    requires
        lex_lt(a, b),
        lex_lt(b, c),
    ensures
        lex_lt(a, c),
    decreases a.len(),
{
    if a.len() > 0 && b.len() > 0 && c.len() > 0 && a[0] == b[0] && b[0] == c[0] {
        lemma_lex_trans(a.skip(1), b.skip(1), c.skip(1));
    }
}

/// Dropping an equal prefix from both strings does not change their order.
pub proof fn lemma_lex_skip_prefix(a: Seq<u8>, b: Seq<u8>, i: int)
    requires
        0 <= i <= a.len(),
        i <= b.len(),
        forall|j: int| 0 <= j < i ==> a[j] == b[j],
    ensures
        lex_lt(a, b) == lex_lt(a.skip(i), b.skip(i)),
    decreases i,
{
    if i > 0 {
        let a1 = a.skip(1);
        let b1 = b.skip(1);
        assert(a[0] == b[0]);
        assert forall|j: int| 0 <= j < i - 1 implies a1[j] == b1[j] by {
            assert(a1[j] == a[j + 1]);
            assert(b1[j] == b[j + 1]);
            assert(a[j + 1] == b[j + 1]);
        }
        lemma_lex_skip_prefix(a1, b1, i - 1);
        assert(a1.skip(i - 1) =~= a.skip(i));
        assert(b1.skip(i - 1) =~= b.skip(i));
    } else {
        assert(a.skip(0) =~= a);
        assert(b.skip(0) =~= b);
    }
}

/// Compares two byte strings in the lexicographic order.
pub fn key_lt(a: &[u8], b: &[u8]) -> (r: bool)
    ensures
        r == lex_lt(a@, b@),
{
    let n: usize = if a.len() < b.len() {
        a.len()
    } else {
        b.len()
    };
    let mut i: usize = 0;
    while i < n
        invariant
            0 <= i <= n,
            n <= a@.len(),
            n <= b@.len(),
            n == if a@.len() < b@.len() {
                a@.len()
            } else {
                b@.len()
            },
            forall|j: int| 0 <= j < i ==> a@[j] == b@[j],
        decreases n - i,
    {
        if a[i] < b[i] {
            proof {
                lemma_lex_skip_prefix(a@, b@, i as int);
            }
            return true;
        }
        if a[i] > b[i] {
            proof {
                lemma_lex_skip_prefix(a@, b@, i as int);
            }
            return false;
        }
        i = i + 1;
    }
    proof {
        lemma_lex_skip_prefix(a@, b@, n as int);
    }
    a.len() < b.len()
}

/// Tests two byte strings for equality.
pub fn bytes_eq(a: &[u8], b: &[u8]) -> (r: bool)
    ensures
        r == (a@ == b@),
{
    if a.len() != b.len() {
        return false;
    }
    let mut i: usize = 0;
    while i < a.len()
        invariant
            0 <= i <= a@.len(),
            a@.len() == b@.len(),
            forall|j: int| 0 <= j < i ==> a@[j] == b@[j],
        decreases a@.len() - i,
    {
        if a[i] != b[i] {
            return false;
        }
        i = i + 1;
    }
    proof {
        assert(a@ =~= b@);
    }
    true
}

/// The four-byte little-endian image of a 32-bit integer.
pub open spec fn u32_le(x: u32) -> Seq<u8> {
    seq![
        (x % 0x100) as u8,
        ((x / 0x100) % 0x100) as u8,
        ((x / 0x10000) % 0x100) as u8,
        ((x / 0x1000000) % 0x100) as u8,
    ]
}

/// The eight-byte little-endian image of a 64-bit integer.
pub open spec fn u64_le(x: u64) -> Seq<u8> {
    seq![
        (x % 0x100) as u8,
        ((x / 0x100) % 0x100) as u8,
        ((x / 0x10000) % 0x100) as u8,
        ((x / 0x1000000) % 0x100) as u8,
        ((x / 0x100000000) % 0x100) as u8,
        ((x / 0x10000000000) % 0x100) as u8,
        ((x / 0x1000000000000) % 0x100) as u8,
        ((x / 0x100000000000000) % 0x100) as u8,
    ]
}

proof fn lemma_u32_le_decode(b0: u8, b1: u8, b2: u8, b3: u8)
    ensures
        u32_le(
            ((b0 as u32) + (b1 as u32) * 0x100 + (b2 as u32) * 0x10000 + (b3 as u32)
                * 0x1000000) as u32,
        ) =~= seq![b0, b1, b2, b3],
{
    let x: u32 = ((b0 as u32) + (b1 as u32) * 0x100 + (b2 as u32) * 0x10000 + (b3 as u32)
        * 0x1000000) as u32;
    assert(x % 0x100 == b0 && (x / 0x100) % 0x100 == b1 && (x / 0x10000) % 0x100 == b2 && (x
        / 0x1000000) % 0x100 == b3) by (bit_vector)
        requires
            x == (b0 as u32) + (b1 as u32) * 0x100 + (b2 as u32) * 0x10000 + (b3 as u32)
                * 0x1000000,
    ;
}

proof fn lemma_u64_le_decode(b0: u8, b1: u8, b2: u8, b3: u8, b4: u8, b5: u8, b6: u8, b7: u8)
    ensures
        u64_le(
            ((b0 as u64) + (b1 as u64) * 0x100 + (b2 as u64) * 0x10000 + (b3 as u64) * 0x1000000 + (
            b4 as u64) * 0x100000000 + (b5 as u64) * 0x10000000000 + (b6 as u64) * 0x1000000000000
                + (b7 as u64) * 0x100000000000000) as u64,
        ) =~= seq![b0, b1, b2, b3, b4, b5, b6, b7],
{
    let x: u64 = ((b0 as u64) + (b1 as u64) * 0x100 + (b2 as u64) * 0x10000 + (b3 as u64)
        * 0x1000000 + (b4 as u64) * 0x100000000 + (b5 as u64) * 0x10000000000 + (b6 as u64)
        * 0x1000000000000 + (b7 as u64) * 0x100000000000000) as u64;
    assert(x % 0x100 == b0 && (x / 0x100) % 0x100 == b1 && (x / 0x10000) % 0x100 == b2 && (x
        / 0x1000000) % 0x100 == b3 && (x / 0x100000000) % 0x100 == b4 && (x / 0x10000000000) % 0x100
        == b5 && (x / 0x1000000000000) % 0x100 == b6 && (x / 0x100000000000000) % 0x100 == b7)
        by (bit_vector)
        requires
            x == (b0 as u64) + (b1 as u64) * 0x100 + (b2 as u64) * 0x10000 + (b3 as u64) * 0x1000000
                + (b4 as u64) * 0x100000000 + (b5 as u64) * 0x10000000000 + (b6 as u64)
                * 0x1000000000000 + (b7 as u64) * 0x100000000000000,
    ;
}

/// The value of four little-endian bytes.
pub open spec fn le32_val(b: Seq<u8>) -> int {
    b[0] + b[1] * 0x100 + b[2] * 0x10000 + b[3] * 0x1000000
}

/// The value of eight little-endian bytes.
pub open spec fn le64_val(b: Seq<u8>) -> int {
    b[0] + b[1] * 0x100 + b[2] * 0x10000 + b[3] * 0x1000000 + b[4] * 0x100000000 + b[5]
        * 0x10000000000 + b[6] * 0x1000000000000 + b[7] * 0x100000000000000
}

pub proof fn lemma_le32_roundtrip(x: u32)
    ensures
        le32_val(u32_le(x)) == x,
{
    assert(x % 0x100 + ((x / 0x100) % 0x100) * 0x100 + ((x / 0x10000) % 0x100) * 0x10000 + ((x
        / 0x1000000) % 0x100) * 0x1000000 == x) by (bit_vector);
}

pub proof fn lemma_le64_roundtrip(x: u64)
    ensures
        le64_val(u64_le(x)) == x,
{
    assert(x % 0x100 + ((x / 0x100) % 0x100) * 0x100 + ((x / 0x10000) % 0x100) * 0x10000 + ((x
        / 0x1000000) % 0x100) * 0x1000000 + ((x / 0x100000000) % 0x100) * 0x100000000 + ((x
        / 0x10000000000) % 0x100) * 0x10000000000 + ((x / 0x1000000000000) % 0x100)
        * 0x1000000000000 + ((x / 0x100000000000000) % 0x100) * 0x100000000000000 == x)
        by (bit_vector);
}

/// Appends the little-endian image of `x` to `out`.
pub fn push_u32_le(out: &mut Vec<u8>, x: u32)
    ensures
        final(out)@ == old(out)@ + u32_le(x),
{
    out.push((x % 0x100) as u8);
    out.push(((x / 0x100) % 0x100) as u8);
    out.push(((x / 0x10000) % 0x100) as u8);
    out.push(((x / 0x1000000) % 0x100) as u8);
    proof {
        assert(out@ =~= old(out)@ + u32_le(x));
    }
}

/// Appends the little-endian image of `x` to `out`.
pub fn push_u64_le(out: &mut Vec<u8>, x: u64)
    ensures
        final(out)@ == old(out)@ + u64_le(x),
{
    out.push((x % 0x100) as u8);
    out.push(((x / 0x100) % 0x100) as u8);
    out.push(((x / 0x10000) % 0x100) as u8);
    out.push(((x / 0x1000000) % 0x100) as u8);
    out.push(((x / 0x100000000) % 0x100) as u8);
    out.push(((x / 0x10000000000) % 0x100) as u8);
    out.push(((x / 0x1000000000000) % 0x100) as u8);
    out.push(((x / 0x100000000000000) % 0x100) as u8);
    proof {
        assert(out@ =~= old(out)@ + u64_le(x));
    }
}

/// Reads the 32-bit little-endian integer stored at `off`.
pub fn read_u32_le(data: &[u8], off: usize) -> (x: u32)
    requires
        off + 4 <= data@.len(),
    ensures
        u32_le(x) == data@.subrange(off as int, off as int + 4),
        x == le32_val(data@.subrange(off as int, off as int + 4)),
{
    let b0 = data[off] as u32;
    let b1 = data[off + 1] as u32;
    let b2 = data[off + 2] as u32;
    let b3 = data[off + 3] as u32;
    let x = b0 + b1 * 0x100 + b2 * 0x10000 + b3 * 0x1000000;
    proof {
        lemma_u32_le_decode(data@[off as int], data@[off as int + 1], data@[off as int + 2],
            data@[off as int + 3]);
        assert(u32_le(x) =~= data@.subrange(off as int, off as int + 4));
        lemma_le32_roundtrip(x);
    }
    x
}

/// Reads the 64-bit little-endian integer stored at `off`.
pub fn read_u64_le(data: &[u8], off: usize) -> (x: u64)
    requires
        off + 8 <= data@.len(),
    ensures
        u64_le(x) == data@.subrange(off as int, off as int + 8),
        x == le64_val(data@.subrange(off as int, off as int + 8)),
{
    let b0 = data[off] as u64;
    let b1 = data[off + 1] as u64;
    let b2 = data[off + 2] as u64;
    let b3 = data[off + 3] as u64;
    let b4 = data[off + 4] as u64;
    let b5 = data[off + 5] as u64;
    let b6 = data[off + 6] as u64;
    let b7 = data[off + 7] as u64;
    let x = b0 + b1 * 0x100 + b2 * 0x10000 + b3 * 0x1000000 + b4 * 0x100000000 + b5 * 0x10000000000
        + b6 * 0x1000000000000 + b7 * 0x100000000000000;
    proof {
        lemma_u64_le_decode(data@[off as int], data@[off as int + 1], data@[off as int + 2],
            data@[off as int + 3], data@[off as int + 4], data@[off as int + 5],
            data@[off as int + 6], data@[off as int + 7]);
        assert(u64_le(x) =~= data@.subrange(off as int, off as int + 8));
        lemma_le64_roundtrip(x);
    }
    x
}

/// Four little-endian bytes are the image of their own value.
pub proof fn lemma_le32_inverse(b: Seq<u8>)
    requires
        b.len() == 4,
    ensures
        0 <= le32_val(b) <= u32::MAX,
        u32_le(le32_val(b) as u32) == b,
{
    lemma_u32_le_decode(b[0], b[1], b[2], b[3]);
    assert(u32_le(le32_val(b) as u32) =~= b);
}

/// Copies `data[start..end]` into a fresh vector.
pub fn copy_range(data: &[u8], start: usize, end: usize) -> (r: Vec<u8>)
    requires
        start <= end <= data@.len(),
    ensures
        r@ == data@.subrange(start as int, end as int),
{
    let mut r: Vec<u8> = Vec::new();
    let mut i: usize = start;
    while i < end
        invariant
            start <= i <= end <= data@.len(),
            r@ == data@.subrange(start as int, i as int),
        decreases end - i,
    {
        r.push(data[i]);
        proof {
            assert(data@.subrange(start as int, i as int).push(data@[i as int]) =~= data@.subrange(
                start as int,
                i as int + 1,
            ));
        }
        i = i + 1;
    }
    r
}

/// Copies a whole byte string.
pub fn clone_bytes(v: &Vec<u8>) -> (r: Vec<u8>)
    ensures
        r@ == v@,
{
    let r = copy_range(v.as_slice(), 0, v.len());
    proof {
        assert(v@.subrange(0, v@.len() as int) =~= v@);
    }
    r
}

/// Appends a whole byte string to `out`.
pub fn push_bytes(out: &mut Vec<u8>, data: &[u8])
    ensures
        final(out)@ == old(out)@ + data@,
{
    let mut i: usize = 0;
    while i < data.len()
        invariant
            0 <= i <= data@.len(),
            out@ == old(out)@ + data@.subrange(0, i as int),
        decreases data@.len() - i,
    {
        out.push(data[i]);
        proof {
            assert(old(out)@ + data@.subrange(0, i as int) + seq![data@[i as int]] =~= old(out)@
                + data@.subrange(0, i as int + 1));
        }
        i = i + 1;
    }
    proof {
        assert(data@.subrange(0, data@.len() as int) =~= data@);
    }
}

} // verus!
