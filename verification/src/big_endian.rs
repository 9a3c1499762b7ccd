//! Big-endian encoding and decoding of the fixed-width integers that OpenType uses.
use vstd::prelude::*;

verus! {

/// The two's complement bit pattern of an `i16`, as an unsigned value.
pub open spec fn i16_bits(v: i16) -> u16 {
    if v < 0 { (v + 65536) as u16 } else { v as u16 }
}

/// The `i16` whose two's complement bit pattern is `u`.
pub open spec fn i16_of_bits(u: u16) -> i16 {
    if u >= 32768 { (u - 65536) as i16 } else { u as i16 }
}

pub open spec fn i32_bits(v: i32) -> u32 {
    if v < 0 { (v + 0x1_0000_0000) as u32 } else { v as u32 }
}

pub open spec fn i32_of_bits(u: u32) -> i32 {
    if u >= 0x8000_0000 { (u - 0x1_0000_0000) as i32 } else { u as i32 }
}

pub open spec fn i64_bits(v: i64) -> u64 {
    if v < 0 { (v + 0x1_0000_0000_0000_0000) as u64 } else { v as u64 }
}

pub open spec fn i64_of_bits(u: u64) -> i64 {
    if u >= 0x8000_0000_0000_0000 { (u - 0x1_0000_0000_0000_0000) as i64 } else { u as i64 }
}

pub open spec fn i8_bits(v: i8) -> u8 {
    if v < 0 { (v + 256) as u8 } else { v as u8 }
}

pub open spec fn i8_of_bits(u: u8) -> i8 {
    if u >= 128 { (u - 256) as i8 } else { u as i8 }
}

/// Big-endian bytes of a `u16`.
pub open spec fn be16(v: u16) -> Seq<u8> {
    seq![(v / 256) as u8, (v % 256) as u8]
}

/// Big-endian bytes of a `u32`.
pub open spec fn be32(v: u32) -> Seq<u8> {
    be16((v / 65536) as u16) + be16((v % 65536) as u16)
}

/// Big-endian bytes of a `u64`.
pub open spec fn be64(v: u64) -> Seq<u8> {
    be32((v / 0x1_0000_0000) as u32) + be32((v % 0x1_0000_0000) as u32)
}

pub open spec fn bei16(v: i16) -> Seq<u8> {
    be16(i16_bits(v))
}

pub open spec fn bei32(v: i32) -> Seq<u8> {
    be32(i32_bits(v))
}

pub open spec fn bei64(v: i64) -> Seq<u8> {
    be64(i64_bits(v))
}

/// The `u16` stored big-endian at position `i` of `s`.
pub open spec fn get_u16(s: Seq<u8>, i: int) -> u16 {
    (s[i] * 256 + s[i + 1]) as u16
}

pub open spec fn get_u32(s: Seq<u8>, i: int) -> u32 {
    (get_u16(s, i) * 65536 + get_u16(s, i + 2)) as u32
}

pub open spec fn get_u64(s: Seq<u8>, i: int) -> u64 {
    (get_u32(s, i) * 0x1_0000_0000 + get_u32(s, i + 4)) as u64
}

pub open spec fn get_i16(s: Seq<u8>, i: int) -> i16 {
    i16_of_bits(get_u16(s, i))
}

pub open spec fn get_i32(s: Seq<u8>, i: int) -> i32 {
    i32_of_bits(get_u32(s, i))
}

pub open spec fn get_i64(s: Seq<u8>, i: int) -> i64 {
    i64_of_bits(get_u64(s, i))
}

pub proof fn lemma_i16_bits(v: i16)
    ensures
        i16_of_bits(i16_bits(v)) == v,
{
}

pub proof fn lemma_i32_bits(v: i32)
    ensures
        i32_of_bits(i32_bits(v)) == v,
{
}

pub proof fn lemma_i64_bits(v: i64)
    ensures
        i64_of_bits(i64_bits(v)) == v,
{
}

pub proof fn lemma_i8_bits(v: i8)
    ensures
        i8_of_bits(i8_bits(v)) == v,
{
}

/// Decoding the bytes of `be16(v)`, wherever they stand, gives back `v`.
pub proof fn lemma_get_u16(s: Seq<u8>, i: int, v: u16)
    requires
        0 <= i,
        i + 2 <= s.len(),
        s.subrange(i, i + 2) == be16(v),
    ensures
        get_u16(s, i) == v,
{
    assert(s[i] == s.subrange(i, i + 2)[0]);
    assert(s[i + 1] == s.subrange(i, i + 2)[1]);
}

pub proof fn lemma_get_u32(s: Seq<u8>, i: int, v: u32)
    requires
        0 <= i,
        i + 4 <= s.len(),
        s.subrange(i, i + 4) == be32(v),
    ensures
        get_u32(s, i) == v,
{
    assert(s.subrange(i, i + 2) =~= s.subrange(i, i + 4).subrange(0, 2));
    assert(s.subrange(i + 2, i + 4) =~= s.subrange(i, i + 4).subrange(2, 4));
    assert(be32(v).subrange(0, 2) =~= be16((v / 65536) as u16));
    assert(be32(v).subrange(2, 4) =~= be16((v % 65536) as u16));
    lemma_get_u16(s, i, (v / 65536) as u16);
    lemma_get_u16(s, i + 2, (v % 65536) as u16);
}

pub proof fn lemma_get_u64(s: Seq<u8>, i: int, v: u64)
    requires
        0 <= i,
        i + 8 <= s.len(),
        s.subrange(i, i + 8) == be64(v),
    ensures
        get_u64(s, i) == v,
{
    assert(s.subrange(i, i + 4) =~= s.subrange(i, i + 8).subrange(0, 4));
    assert(s.subrange(i + 4, i + 8) =~= s.subrange(i, i + 8).subrange(4, 8));
    assert(be64(v).subrange(0, 4) =~= be32((v / 0x1_0000_0000) as u32));
    assert(be64(v).subrange(4, 8) =~= be32((v % 0x1_0000_0000) as u32));
    lemma_get_u32(s, i, (v / 0x1_0000_0000) as u32);
    lemma_get_u32(s, i + 4, (v % 0x1_0000_0000) as u32);
}

/// Reads the `u8` at position `i`.
pub fn read_u8_at(data: &[u8], i: usize) -> (r: u8)
    requires
        i < data@.len(),
    ensures
        r == data@[i as int],
{
    data[i]
}

/// Reads the big-endian `u16` at position `i`.
pub fn read_u16_at(data: &[u8], i: usize) -> (r: u16)
    requires
        i + 2 <= data@.len(),
    ensures
        r == get_u16(data@, i as int),
{
    (data[i] as u16) * 256 + (data[i + 1] as u16)
}

/// Reads the big-endian `u32` at position `i`.
pub fn read_u32_at(data: &[u8], i: usize) -> (r: u32)
    requires
        i + 4 <= data@.len(),
    ensures
        r == get_u32(data@, i as int),
{
    let _n = data.len();
    let hi = read_u16_at(data, i);
    let lo = read_u16_at(data, i + 2);
    (hi as u32) * 65536 + (lo as u32)
}

/// Reads the big-endian `u64` at position `i`.
pub fn read_u64_at(data: &[u8], i: usize) -> (r: u64)
    requires
        i + 8 <= data@.len(),
    ensures
        r == get_u64(data@, i as int),
{
    let _n = data.len();
    let hi = read_u32_at(data, i);
    let lo = read_u32_at(data, i + 4);
    (hi as u64) * 0x1_0000_0000 + (lo as u64)
}

pub fn i16_from_bits(u: u16) -> (r: i16)
    ensures
        r == i16_of_bits(u),
{
    if u >= 32768 {
        (u as i32 - 65536) as i16
    } else {
        u as i16
    }
}

pub fn i8_from_bits(u: u8) -> (r: i8)
    ensures
        r == i8_of_bits(u),
{
    if u >= 128 {
        (u as i16 - 256) as i8
    } else {
        u as i8
    }
}

pub fn read_i16_at(data: &[u8], i: usize) -> (r: i16)
    requires
        i + 2 <= data@.len(),
    ensures
        r == get_i16(data@, i as int),
{
    i16_from_bits(read_u16_at(data, i))
}

pub fn read_i32_at(data: &[u8], i: usize) -> (r: i32)
    requires
        i + 4 <= data@.len(),
    ensures
        r == get_i32(data@, i as int),
{
    let u = read_u32_at(data, i);
    if u >= 0x8000_0000 {
        (u as i64 - 0x1_0000_0000) as i32
    } else {
        u as i32
    }
}

pub fn read_i64_at(data: &[u8], i: usize) -> (r: i64)
    requires
        i + 8 <= data@.len(),
    ensures
        r == get_i64(data@, i as int),
{
    let u = read_u64_at(data, i);
    if u >= 0x8000_0000_0000_0000 {
        (u as i128 - 0x1_0000_0000_0000_0000) as i64
    } else {
        u as i64
    }
}

/// Appends the big-endian bytes of `v`.
pub fn write_u16(out: &mut Vec<u8>, v: u16)
    ensures
        final(out)@ == old(out)@ + be16(v),
{
    out.push((v / 256) as u8);
    out.push((v % 256) as u8);
    assert(final(out)@ =~= old(out)@ + be16(v));
}

pub fn write_u32(out: &mut Vec<u8>, v: u32)
    ensures
        final(out)@ == old(out)@ + be32(v),
{
    write_u16(out, (v / 65536) as u16);
    write_u16(out, (v % 65536) as u16);
    assert(final(out)@ =~= old(out)@ + be32(v));
}

pub fn write_u64(out: &mut Vec<u8>, v: u64)
    ensures
        final(out)@ == old(out)@ + be64(v),
{
    write_u32(out, (v / 0x1_0000_0000) as u32);
    write_u32(out, (v % 0x1_0000_0000) as u32);
    assert(final(out)@ =~= old(out)@ + be64(v));
}

pub fn i16_to_bits(v: i16) -> (r: u16)
    ensures
        r == i16_bits(v),
{
    if v < 0 {
        (v as i32 + 65536) as u16
    } else {
        v as u16
    }
}

pub fn i8_to_bits(v: i8) -> (r: u8)
    ensures
        r == i8_bits(v),
{
    if v < 0 {
        (v as i16 + 256) as u8
    } else {
        v as u8
    }
}

pub fn write_i16(out: &mut Vec<u8>, v: i16)
    ensures
        final(out)@ == old(out)@ + bei16(v),
{
    write_u16(out, i16_to_bits(v));
}

pub fn write_i32(out: &mut Vec<u8>, v: i32)
    ensures
        final(out)@ == old(out)@ + bei32(v),
{
    let u: u32 = if v < 0 {
        (v as i64 + 0x1_0000_0000) as u32
    } else {
        v as u32
    };
    write_u32(out, u);
}

pub fn write_i64(out: &mut Vec<u8>, v: i64)
    ensures
        final(out)@ == old(out)@ + bei64(v),
{
    let u: u64 = if v < 0 {
        (v as i128 + 0x1_0000_0000_0000_0000) as u64
    } else {
        v as u64
    };
    write_u64(out, u);
}

/// Appends all bytes of `data`.
pub fn write_bytes(out: &mut Vec<u8>, data: &[u8])
    ensures
        final(out)@ == old(out)@ + data@,
{
    let mut i: usize = 0;
    while i < data.len()
        invariant
            i <= data@.len(),
            out@ == old(out)@ + data@.subrange(0, i as int),
        decreases data@.len() - i,
    {
        out.push(data[i]);
        i = i + 1;
        assert(out@ =~= old(out)@ + data@.subrange(0, i as int));
    }
    assert(data@.subrange(0, data@.len() as int) =~= data@);
}

/// Copies `data[start..end]` into a new vector.
pub fn copy_range(data: &[u8], start: usize, end: usize) -> (r: Vec<u8>)
    requires
        start <= end <= data@.len(),
    ensures
        r@ == data@.subrange(start as int, end as int),
{
    let mut r: Vec<u8> = Vec::new();
    let mut i: usize = start;
    while i < end
        invariant
            start <= i <= end <= data@.len(),
            r@ == data@.subrange(start as int, i as int),
        decreases end - i,
    {
        r.push(data[i]);
        i = i + 1;
        assert(r@ =~= data@.subrange(start as int, i as int));
    }
    r
}

/// Big-endian bytes of a sequence of `u16` values.
pub open spec fn be16s(v: Seq<u16>) -> Seq<u8>
    decreases v.len(),
{
    if v.len() == 0 {
        Seq::empty()
    } else {
        be16s(v.drop_last()) + be16(v.last())
    }
}

/// Big-endian bytes of a sequence of `i16` values.
pub open spec fn bei16s(v: Seq<i16>) -> Seq<u8>
    decreases v.len(),
{
    if v.len() == 0 {
        Seq::empty()
    } else {
        bei16s(v.drop_last()) + bei16(v.last())
    }
}

/// The `n` big-endian `u16` values stored from position `start` on.
pub open spec fn get_u16s(s: Seq<u8>, start: int, n: nat) -> Seq<u16> {
    Seq::new(n, |k: int| get_u16(s, start + 2 * k))
}

/// The `n` big-endian `i16` values stored from position `start` on.
pub open spec fn get_i16s(s: Seq<u8>, start: int, n: nat) -> Seq<i16> {
    Seq::new(n, |k: int| get_i16(s, start + 2 * k))
}

pub proof fn lemma_be16s(v: Seq<u16>)
    ensures
        be16s(v).len() == 2 * v.len(),
        forall|k: int| 0 <= k < v.len() ==> #[trigger] get_u16(be16s(v), 2 * k) == v[k],
    decreases v.len(),
{
    if v.len() > 0 {
        lemma_be16s(v.drop_last());
        let p = be16s(v.drop_last());
        assert forall|k: int| 0 <= k < v.len() implies #[trigger] get_u16(be16s(v), 2 * k) == v[k] by {
            if k < v.len() - 1 {
                assert(get_u16(p, 2 * k) == v.drop_last()[k]);
            } else {
                assert(be16s(v).subrange(2 * k, 2 * k + 2) =~= be16(v.last()));
                lemma_get_u16(be16s(v), 2 * k, v.last());
            }
        }
    }
}

pub proof fn lemma_bei16s(v: Seq<i16>)
    ensures
        bei16s(v).len() == 2 * v.len(),
        forall|k: int| 0 <= k < v.len() ==> #[trigger] get_i16(bei16s(v), 2 * k) == v[k],
    decreases v.len(),
{
    if v.len() > 0 {
        lemma_bei16s(v.drop_last());
        let p = bei16s(v.drop_last());
        assert forall|k: int| 0 <= k < v.len() implies #[trigger] get_i16(bei16s(v), 2 * k) == v[k] by {
            if k < v.len() - 1 {
                assert(get_i16(p, 2 * k) == v.drop_last()[k]);
            } else {
                assert(bei16s(v).subrange(2 * k, 2 * k + 2) =~= be16(i16_bits(v.last())));
                lemma_get_u16(bei16s(v), 2 * k, i16_bits(v.last()));
                lemma_i16_bits(v.last());
            }
        }
    }
}

/// Decoding `be16s(v)` embedded at position `a.len()` gives back `v`.
pub proof fn lemma_get_u16s(a: Seq<u8>, v: Seq<u16>, b: Seq<u8>)
    ensures
        get_u16s(a + be16s(v) + b, a.len() as int, v.len()) == v,
{
    lemma_be16s(v);
    let s = a + be16s(v) + b;
    assert forall|k: int| 0 <= k < v.len() implies #[trigger] get_u16s(s, a.len() as int, v.len())[k] == v[k] by {
        assert(get_u16(be16s(v), 2 * k) == v[k]);
        assert(s[a.len() + 2 * k] == be16s(v)[2 * k]);
        assert(s[a.len() + 2 * k + 1] == be16s(v)[2 * k + 1]);
    }
    assert(get_u16s(s, a.len() as int, v.len()) =~= v);
}

/// Decoding `bei16s(v)` embedded at position `a.len()` gives back `v`.
pub proof fn lemma_get_i16s(a: Seq<u8>, v: Seq<i16>, b: Seq<u8>)
    ensures
        get_i16s(a + bei16s(v) + b, a.len() as int, v.len()) == v,
{
    lemma_bei16s(v);
    let s = a + bei16s(v) + b;
    assert forall|k: int| 0 <= k < v.len() implies #[trigger] get_i16s(s, a.len() as int, v.len())[k] == v[k] by {
        assert(get_i16(bei16s(v), 2 * k) == v[k]);
        assert(s[a.len() + 2 * k] == bei16s(v)[2 * k]);
        assert(s[a.len() + 2 * k + 1] == bei16s(v)[2 * k + 1]);
    }
    assert(get_i16s(s, a.len() as int, v.len()) =~= v);
}

/// Reads `n` big-endian `u16` values from position `start` on.
pub fn read_u16s_at(data: &[u8], start: usize, n: usize) -> (r: Vec<u16>)
    requires
        start + 2 * n <= data@.len(),
    ensures
        r@ == get_u16s(data@, start as int, n as nat),
{
    let mut r: Vec<u16> = Vec::new();
    let mut k: usize = 0;
    let len = data.len();
    while k < n
        invariant
            k <= n,
            len == data@.len(),
            start + 2 * n <= data@.len(),
            r@ == get_u16s(data@, start as int, k as nat),
        decreases n - k,
    {
        r.push(read_u16_at(data, start + 2 * k));
        k = k + 1;
        assert(r@ =~= get_u16s(data@, start as int, k as nat));
    }
    r
}

/// Reads `n` big-endian `i16` values from position `start` on.
pub fn read_i16s_at(data: &[u8], start: usize, n: usize) -> (r: Vec<i16>)
    requires
        start + 2 * n <= data@.len(),
    ensures
        r@ == get_i16s(data@, start as int, n as nat),
{
    let mut r: Vec<i16> = Vec::new();
    let mut k: usize = 0;
    let len = data.len();
    while k < n
        invariant
            k <= n,
            len == data@.len(),
            start + 2 * n <= data@.len(),
            r@ == get_i16s(data@, start as int, k as nat),
        decreases n - k,
    {
        r.push(read_i16_at(data, start + 2 * k));
        k = k + 1;
        assert(r@ =~= get_i16s(data@, start as int, k as nat));
    }
    r
}

/// Appends the big-endian bytes of every value of `v`.
pub fn write_u16s(out: &mut Vec<u8>, v: &Vec<u16>)
    ensures
        final(out)@ == old(out)@ + be16s(v@),
{
    let mut k: usize = 0;
    while k < v.len()
        invariant
            k <= v@.len(),
            out@ == old(out)@ + be16s(v@.subrange(0, k as int)),
        decreases v@.len() - k,
    {
        let ghost before = out@;
        write_u16(out, v[k]);
        k = k + 1;
        assert(v@.subrange(0, k as int).drop_last() =~= v@.subrange(0, k - 1));
        assert(out@ =~= old(out)@ + be16s(v@.subrange(0, k as int)));
    }
    assert(v@.subrange(0, v@.len() as int) =~= v@);
}

/// Appends the big-endian bytes of every value of `v`.
pub fn write_i16s(out: &mut Vec<u8>, v: &Vec<i16>)
    ensures
        final(out)@ == old(out)@ + bei16s(v@),
{
    let mut k: usize = 0;
    while k < v.len()
        invariant
            k <= v@.len(),
            out@ == old(out)@ + bei16s(v@.subrange(0, k as int)),
        decreases v@.len() - k,
    {
        write_i16(out, v[k]);
        k = k + 1;
        assert(v@.subrange(0, k as int).drop_last() =~= v@.subrange(0, k - 1));
        assert(out@ =~= old(out)@ + bei16s(v@.subrange(0, k as int)));
    }
    assert(v@.subrange(0, v@.len() as int) =~= v@);
}

/// Decoding the bytes of `be16s(v)`, wherever they stand, gives back `v`.
pub proof fn lemma_get_u16s_at(s: Seq<u8>, off: int, v: Seq<u16>)
    requires
        0 <= off,
        off + 2 * v.len() <= s.len(),
        s.subrange(off, off + 2 * v.len()) == be16s(v),
    ensures
        get_u16s(s, off, v.len()) == v,
{
    lemma_be16s(v);
    let sub = s.subrange(off, off + 2 * v.len());
    assert forall|k: int| 0 <= k < v.len() implies #[trigger] get_u16s(s, off, v.len())[k] == v[k] by {
        assert(get_u16(be16s(v), 2 * k) == v[k]);
        assert(s[off + 2 * k] == sub[2 * k]);
        assert(s[off + 2 * k + 1] == sub[2 * k + 1]);
    }
    assert(get_u16s(s, off, v.len()) =~= v);
}

/// Decoding the bytes of `bei16s(v)`, wherever they stand, gives back `v`.
pub proof fn lemma_get_i16s_at(s: Seq<u8>, off: int, v: Seq<i16>)
    requires
        0 <= off,
        off + 2 * v.len() <= s.len(),
        s.subrange(off, off + 2 * v.len()) == bei16s(v),
    ensures
        get_i16s(s, off, v.len()) == v,
{
    lemma_bei16s(v);
    let sub = s.subrange(off, off + 2 * v.len());
    assert forall|k: int| 0 <= k < v.len() implies #[trigger] get_i16s(s, off, v.len())[k] == v[k] by {
        assert(get_i16(bei16s(v), 2 * k) == v[k]);
        assert(s[off + 2 * k] == sub[2 * k]);
        assert(s[off + 2 * k + 1] == sub[2 * k + 1]);
    }
    assert(get_i16s(s, off, v.len()) =~= v);
}

/// Decoding an `i16` from the bytes of `bei16(v)` gives back `v`.
pub proof fn lemma_get_i16(s: Seq<u8>, i: int, v: i16)
    requires
        0 <= i,
        i + 2 <= s.len(),
        s.subrange(i, i + 2) == bei16(v),
    ensures
        get_i16(s, i) == v,
{
    lemma_get_u16(s, i, i16_bits(v));
    lemma_i16_bits(v);
}

pub proof fn lemma_get_i32(s: Seq<u8>, i: int, v: i32)
    requires
        0 <= i,
        i + 4 <= s.len(),
        s.subrange(i, i + 4) == bei32(v),
    ensures
        get_i32(s, i) == v,
{
    lemma_get_u32(s, i, i32_bits(v));
    lemma_i32_bits(v);
}

pub proof fn lemma_get_i64(s: Seq<u8>, i: int, v: i64)
    requires
        0 <= i,
        i + 8 <= s.len(),
        s.subrange(i, i + 8) == bei64(v),
    ensures
        get_i64(s, i) == v,
{
    lemma_get_u64(s, i, i64_bits(v));
    lemma_i64_bits(v);
}

/// The second part of a concatenation is its subrange after the first part.
pub proof fn lemma_concat_right(a: Seq<u8>, b: Seq<u8>)
    ensures
        (a + b).subrange(a.len() as int, (a.len() + b.len()) as int) == b,
{
    assert((a + b).subrange(a.len() as int, (a.len() + b.len()) as int) =~= b);
}

/// A subrange within the first part of a concatenation is a subrange of that part.
pub proof fn lemma_concat_left(a: Seq<u8>, b: Seq<u8>, i: int, j: int)
    requires
        0 <= i <= j <= a.len(),
    ensures
        (a + b).subrange(i, j) == a.subrange(i, j),
{
    assert((a + b).subrange(i, j) =~= a.subrange(i, j));
}

/// Where `i + 2 <= a.len()`, a `u16` read in `a + b` reads `a`.
pub proof fn lemma_get_u16_prefix(a: Seq<u8>, b: Seq<u8>, i: int)
    requires
        0 <= i,
        i + 2 <= a.len(),
    ensures
        get_u16(a + b, i) == get_u16(a, i),
{
}

/// A `u16` read after `a` in `a + b` reads `b`.
pub proof fn lemma_get_u16_shift(a: Seq<u8>, b: Seq<u8>, i: int)
    requires
        0 <= i,
        i + 2 <= b.len(),
    ensures
        get_u16(a + b, a.len() + i) == get_u16(b, i),
{
}

/// The high 16 bits of a `u32`.
pub open spec fn hi16(v: u32) -> u16 {
    (v / 65536) as u16
}

/// The low 16 bits of a `u32`.
pub open spec fn lo16(v: u32) -> u16 {
    (v % 65536) as u16
}

/// The high 32 bits of a `u64`.
pub open spec fn hi32(v: u64) -> u32 {
    (v / 0x1_0000_0000) as u32
}

/// The low 32 bits of a `u64`.
pub open spec fn lo32(v: u64) -> u32 {
    (v % 0x1_0000_0000) as u32
}

/// The `u32` whose high and low 16 bits are `hi` and `lo`.
pub open spec fn join32(hi: u16, lo: u16) -> u32 {
    (hi * 65536 + lo) as u32
}

/// The `u64` whose high and low 32 bits are `hi` and `lo`.
pub open spec fn join64(hi: u32, lo: u32) -> u64 {
    (hi * 0x1_0000_0000 + lo) as u64
}

/// Splitting a `u32` into halves and joining them gives it back.
pub proof fn lemma_join32(v: u32)
    ensures
        join32(hi16(v), lo16(v)) == v,
{
}

/// Splitting a `u64` into halves and joining them gives it back.
pub proof fn lemma_join64(v: u64)
    ensures
        join64(hi32(v), lo32(v)) == v,
{
}

/// The 16-bit words of a `u64`, most significant first.
pub open spec fn words64(v: u64) -> Seq<u16> {
    seq![hi16(hi32(v)), lo16(hi32(v)), hi16(lo32(v)), lo16(lo32(v))]
}

/// The `u64` made of the four 16-bit words of `w` from position `i` on.
pub open spec fn join_words64(w: Seq<u16>, i: int) -> u64 {
    join64(join32(w[i], w[i + 1]), join32(w[i + 2], w[i + 3]))
}

/// Computes `join32(hi, lo)`.
pub fn make32(hi: u16, lo: u16) -> (r: u32)
    ensures
        r == join32(hi, lo),
{
    (hi as u32) * 65536 + (lo as u32)
}

/// Computes `join64(hi, lo)`.
pub fn make64(hi: u32, lo: u32) -> (r: u64)
    ensures
        r == join64(hi, lo),
{
    (hi as u64) * 0x1_0000_0000 + (lo as u64)
}

/// Splits a `u32` into its high and low 16 bits.
pub fn split32(v: u32) -> (r: (u16, u16))
    ensures
        r == (hi16(v), lo16(v)),
{
    ((v / 65536) as u16, (v % 65536) as u16)
}

/// Splits a `u64` into its high and low 32 bits.
pub fn split64(v: u64) -> (r: (u32, u32))
    ensures
        r == (hi32(v), lo32(v)),
{
    ((v / 0x1_0000_0000) as u32, (v % 0x1_0000_0000) as u32)
}

/// The `i64` whose two's complement bit pattern is `u`.
pub fn i64_from_bits(u: u64) -> (r: i64)
    ensures
        r == i64_of_bits(u),
{
    if u >= 0x8000_0000_0000_0000 {
        (u as i128 - 0x1_0000_0000_0000_0000) as i64
    } else {
        u as i64
    }
}

/// The two's complement bit pattern of `v`.
pub fn i64_to_bits(v: i64) -> (r: u64)
    ensures
        r == i64_bits(v),
{
    if v < 0 {
        (v as i128 + 0x1_0000_0000_0000_0000) as u64
    } else {
        v as u64
    }
}

/// The `i32` whose two's complement bit pattern is `u`.
pub fn i32_from_bits(u: u32) -> (r: i32)
    ensures
        r == i32_of_bits(u),
{
    if u >= 0x8000_0000 {
        (u as i64 - 0x1_0000_0000) as i32
    } else {
        u as i32
    }
}

/// The two's complement bit pattern of `v`.
pub fn i32_to_bits(v: i32) -> (r: u32)
    ensures
        r == i32_bits(v),
{
    if v < 0 {
        (v as i64 + 0x1_0000_0000) as u32
    } else {
        v as u32
    }
}

/// The `u16` whose high and low bytes are `a` and `b`.
pub open spec fn pair16(a: u8, b: u8) -> u16 {
    (a * 256 + b) as u16
}

/// The high byte of a `u16`.
pub open spec fn hi8(w: u16) -> u8 {
    (w / 256) as u8
}

/// The low byte of a `u16`.
pub open spec fn lo8(w: u16) -> u8 {
    (w % 256) as u8
}

/// Computes `pair16(a, b)`.
pub fn make16(a: u8, b: u8) -> (r: u16)
    ensures
        r == pair16(a, b),
{
    (a as u16) * 256 + (b as u16)
}

/// The high byte of `w`.
pub fn hi_byte(w: u16) -> (r: u8)
    ensures
        r == hi8(w),
{
    (w / 256) as u8
}

/// The low byte of `w`.
pub fn lo_byte(w: u16) -> (r: u8)
    ensures
        r == lo8(w),
{
    (w % 256) as u8
}

/// A copy of a vector of copyable values.
pub fn copy_vec<T: Copy>(v: &Vec<T>) -> (r: Vec<T>)
    ensures
        r@ == v@,
{
    let mut r: Vec<T> = Vec::new();
    let mut k: usize = 0;
    while k < v.len()
        invariant
            k <= v@.len(),
            r@ == v@.take(k as int),
        decreases v@.len() - k,
    {
        r.push(v[k]);
        k = k + 1;
        assert(r@ =~= v@.take(k as int));
    }
    assert(v@.take(k as int) =~= v@);
    r
}

} // verus!

verus! {

/// The unsigned value of the big-endian bytes at `i` and `i + 1`.
pub open spec fn be_u16_value(s: Seq<u8>, i: int) -> int {
    s[i] * 256 + s[i + 1]
}

/// The signed (two's complement) value of the big-endian bytes at `i` and `i + 1`.
pub open spec fn be_i16_value(s: Seq<u8>, i: int) -> int {
    be_u16_value(s, i) - (if s[i] >= 128 { 65536int } else { 0int })
}

/// The unsigned value of the four big-endian bytes from `i` on.
pub open spec fn be_u32_value(s: Seq<u8>, i: int) -> int {
    be_u16_value(s, i) * 65536 + be_u16_value(s, i + 2)
}

/// The signed (two's complement) value of the four big-endian bytes from `i` on.
pub open spec fn be_i32_value(s: Seq<u8>, i: int) -> int {
    be_u32_value(s, i) - (if s[i] >= 128 { 0x1_0000_0000int } else { 0int })
}

/// The signed (two's complement) value of the eight big-endian bytes from `i` on.
pub open spec fn be_i64_value(s: Seq<u8>, i: int) -> int {
    be_u32_value(s, i) * 0x1_0000_0000 + be_u32_value(s, i + 4) - (if s[i] >= 128 {
        0x1_0000_0000_0000_0000int
    } else {
        0int
    })
}

/// Each word that `get_u16s` reads has the big-endian value of its two bytes.
pub proof fn lemma_get_u16s_values(s: Seq<u8>, start: int, n: nat)
    requires
        0 <= start,
        start + 2 * n <= s.len(),
    ensures
        forall|k: int|
            0 <= k < n ==> #[trigger] get_u16s(s, start, n)[k] as int == be_u16_value(s, start + 2 * k)
                && i16_of_bits(get_u16s(s, start, n)[k]) as int == be_i16_value(s, start + 2 * k),
{
    assert forall|k: int| 0 <= k < n implies #[trigger] get_u16s(s, start, n)[k] as int == be_u16_value(
        s,
        start + 2 * k,
    ) && i16_of_bits(get_u16s(s, start, n)[k]) as int == be_i16_value(s, start + 2 * k) by {
        lemma_get_u16_value(s, start + 2 * k);
    }
}

/// Each word of `be16s(v)` has the big-endian value of its two bytes.
pub proof fn lemma_be16s_values(v: Seq<u16>)
    ensures
        be16s(v).len() == 2 * v.len(),
        forall|k: int|
            0 <= k < v.len() ==> be_u16_value(be16s(v), 2 * k) == #[trigger] v[k] && be_i16_value(be16s(v), 2 * k)
                == i16_of_bits(v[k]),
{
    lemma_be16s(v);
    assert forall|k: int| 0 <= k < v.len() implies be_u16_value(be16s(v), 2 * k) == #[trigger] v[k]
        && be_i16_value(be16s(v), 2 * k) == i16_of_bits(v[k]) by {
        lemma_be16s_value(v, k);
    }
}

/// A 32-bit value is its high half times 65536 plus its low half; its two's complement bits
/// read back as it.
pub proof fn lemma_halves(v: u32)
    ensures
        hi16(v) as int * 65536 + lo16(v) as int == v,
        hi16(v) >= 0x8000 <==> v >= 0x8000_0000,
{
}

/// A 64-bit value is its high 32 bits times 2^32 plus its low 32 bits.
pub proof fn lemma_halves64(v: u64)
    ensures
        hi32(v) as int * 0x1_0000_0000 + lo32(v) as int == v,
        hi16(hi32(v)) >= 0x8000 <==> v >= 0x8000_0000_0000_0000,
{
}

/// The 16-bit word that `get_u16` reads is the big-endian value of the two bytes.
pub proof fn lemma_get_u16_value(s: Seq<u8>, i: int)
    requires
        0 <= i,
        i + 2 <= s.len(),
    ensures
        get_u16(s, i) as int == be_u16_value(s, i),
        i16_of_bits(get_u16(s, i)) as int == be_i16_value(s, i),
{
}

/// The big-endian value of the word `get_u16` reads from `be16s(v)` at word `k` is `v[k]`.
pub proof fn lemma_be16s_value(v: Seq<u16>, k: int)
    requires
        0 <= k < v.len(),
    ensures
        be16s(v).len() == 2 * v.len(),
        be_u16_value(be16s(v), 2 * k) == v[k],
        be_i16_value(be16s(v), 2 * k) == i16_of_bits(v[k]),
{
    lemma_be16s(v);
    lemma_get_u16_value(be16s(v), 2 * k);
}

} // verus!

verus! {

/// The 32-bit word that `get_u32` reads is the big-endian value of the four bytes.
pub proof fn lemma_get_u32_value(s: Seq<u8>, i: int)
    requires
        0 <= i,
        i + 4 <= s.len(),
    ensures
        get_u32(s, i) as int == be_u32_value(s, i),
{
    lemma_get_u16_value(s, i);
    lemma_get_u16_value(s, i + 2);
}

} // verus!
