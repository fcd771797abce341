//! Big-endian integers inside byte sequences.

use vstd::prelude::*;

verus! {

/// The `n` low-order bytes of `v`, most significant first.
pub open spec fn be(v: nat, n: nat) -> Seq<u8>
    decreases n,
{
    if n == 0 {
        Seq::empty()
    } else {
        be(v / 256, (n - 1) as nat).push((v % 256) as u8)
    }
}

/// The number that `s` spells in base 256, most significant byte first.
pub open spec fn un_be(s: Seq<u8>) -> nat
    decreases s.len(),
{
    if s.len() == 0 {
        0
    } else {
        un_be(s.drop_last()) * 256 + s.last() as nat
    }
}

/// How many numbers `n` bytes can spell.
pub open spec fn pow256(n: nat) -> nat
    decreases n,
{
    if n == 0 {
        1
    } else {
        256 * pow256((n - 1) as nat)
    }
}

pub open spec fn be16(v: u16) -> Seq<u8> {
    be(v as nat, 2)
}

pub open spec fn be32(v: u32) -> Seq<u8> {
    be(v as nat, 4)
}

pub open spec fn be64(v: u64) -> Seq<u8> {
    be(v as nat, 8)
}

/// Two's complement, four bytes.
pub open spec fn be_i32(v: i32) -> Seq<u8> {
    be32(v as u32)
}

/// The four-byte length prefix of a payload of `n` bytes: the low 32 bits of
/// `n`, read as a signed integer.
pub open spec fn be_len(n: nat) -> Seq<u8> {
    be_i32(n as i32)
}

pub open spec fn i16_of(s: Seq<u8>) -> i16 {
    (un_be(s) as u16) as i16
}

pub open spec fn i32_of(s: Seq<u8>) -> i32 {
    (un_be(s) as u32) as i32
}

pub open spec fn i64_of(s: Seq<u8>) -> i64 {
    (un_be(s) as u64) as i64
}

pub proof fn lemma_be_len(v: nat, n: nat)
    ensures
        be(v, n).len() == n,
    decreases n,
{
    if n > 0 {
        lemma_be_len(v / 256, (n - 1) as nat);
    }
}

pub proof fn lemma_un_be_bound(s: Seq<u8>)
    ensures
        un_be(s) < pow256(s.len()),
    decreases s.len(),
{
    if s.len() > 0 {
        lemma_un_be_bound(s.drop_last());
    }
}

/// Reading back what was written.
pub proof fn lemma_un_be_be(v: nat, n: nat)
    requires
        v < pow256(n),
    ensures
        un_be(be(v, n)) == v,
        be(v, n).len() == n,
    decreases n,
{
    lemma_be_len(v, n);
    if n > 0 {
        lemma_un_be_be(v / 256, (n - 1) as nat);
        assert(be(v, n).drop_last() =~= be(v / 256, (n - 1) as nat));
    }
}

pub proof fn lemma_pow256()
    ensures
        pow256(1) == 0x100,
        pow256(2) == 0x1_0000,
        pow256(4) == 0x1_0000_0000,
        pow256(8) == 0x1_0000_0000_0000_0000,
{
    reveal_with_fuel(pow256, 9);
}

pub proof fn lemma_be16_back(v: u16)
    ensures
        be16(v).len() == 2,
        un_be(be16(v)) == v,
{
    lemma_pow256();
    lemma_un_be_be(v as nat, 2);
}

/// Bytes are the bytes of the number that they denote.
pub proof fn lemma_be_un_be(s: Seq<u8>)
    ensures
        be(un_be(s), s.len()) == s,
    decreases s.len(),
{
    if s.len() > 0 {
        let front = s.drop_last();
        let v = un_be(s);
        lemma_be_un_be(front);
        assert(v / 256 == un_be(front) && v % 256 == s.last());
        assert(be(v, s.len()) =~= s);
    } else {
        assert(be(0, 0) =~= s);
    }
}

/// Two bytes are those of the number that they denote.
pub proof fn lemma_be16_of(s: Seq<u8>)
    requires
        s.len() == 2,
    ensures
        un_be(s) <= u16::MAX,
        be16(un_be(s) as u16) == s,
{
    lemma_pow256();
    lemma_un_be_bound(s);
    lemma_be_un_be(s);
}

pub proof fn lemma_be32_back(v: u32)
    ensures
        be32(v).len() == 4,
        un_be(be32(v)) == v,
{
    lemma_pow256();
    lemma_un_be_be(v as nat, 4);
}

pub proof fn lemma_be64_back(v: u64)
    ensures
        be64(v).len() == 8,
        un_be(be64(v)) == v,
{
    lemma_pow256();
    lemma_un_be_be(v as nat, 8);
}

pub proof fn lemma_i16_back(v: i16)
    ensures
        be16(v as u16).len() == 2,
        i16_of(be16(v as u16)) == v,
{
    lemma_be16_back(v as u16);
    assert((v as u16) as i16 == v) by (bit_vector);
}

pub proof fn lemma_i32_back(v: i32)
    ensures
        be_i32(v).len() == 4,
        i32_of(be_i32(v)) == v,
{
    lemma_be32_back(v as u32);
    assert((v as u32) as i32 == v) by (bit_vector);
}

pub proof fn lemma_i64_back(v: i64)
    ensures
        be64(v as u64).len() == 8,
        i64_of(be64(v as u64)) == v,
{
    lemma_be64_back(v as u64);
    assert((v as u64) as i64 == v) by (bit_vector);
}

/// A length that fits its prefix is read back unchanged.
pub proof fn lemma_len_back(n: nat)
    requires
        n <= i32::MAX,
    ensures
        be_len(n).len() == 4,
        i32_of(be_len(n)) == n,
{
    lemma_i32_back(n as i32);
}

/// Appends `bytes` to `out`.
pub fn put_bytes(out: &mut Vec<u8>, bytes: &[u8])
    ensures
        final(out)@ == old(out)@ + bytes@,
{
    out.extend_from_slice(bytes);
    assert(out@ =~= old(out)@ + bytes@);
}

/// A fresh vector with the bytes of `bytes`.
pub fn copy_bytes(bytes: &[u8]) -> (out: Vec<u8>)
    ensures
        out@ == bytes@,
{
    let mut out: Vec<u8> = Vec::new();
    put_bytes(&mut out, bytes);
    assert(out@ =~= bytes@);
    out
}

pub fn put_u16(out: &mut Vec<u8>, v: u16)
    ensures
        final(out)@ == old(out)@ + be16(v),
{
    proof {
        reveal_with_fuel(be, 3);
    }
    out.push((v / 256) as u8);
    out.push((v % 256) as u8);
    assert(out@ =~= old(out)@ + be16(v));
}

pub fn put_u32(out: &mut Vec<u8>, v: u32)
    ensures
        final(out)@ == old(out)@ + be32(v),
{
    proof {
        reveal_with_fuel(be, 5);
    }
    out.push((v / 256 / 256 / 256 % 256) as u8);
    out.push((v / 256 / 256 % 256) as u8);
    out.push((v / 256 % 256) as u8);
    out.push((v % 256) as u8);
    assert(out@ =~= old(out)@ + be32(v));
}

pub fn put_u64(out: &mut Vec<u8>, v: u64)
    ensures
        final(out)@ == old(out)@ + be64(v),
{
    let v1: u64 = v / 256;
    let v2: u64 = v1 / 256;
    let v3: u64 = v2 / 256;
    let v4: u64 = v3 / 256;
    let v5: u64 = v4 / 256;
    let v6: u64 = v5 / 256;
    let v7: u64 = v6 / 256;
    proof {
        assert(be(v7 as nat, 1) =~= seq![(v7 % 256) as u8]) by {
            reveal_with_fuel(be, 2);
        }
        assert(be(v6 as nat, 2) =~= be(v7 as nat, 1).push((v6 % 256) as u8));
        assert(be(v5 as nat, 3) =~= be(v6 as nat, 2).push((v5 % 256) as u8));
        assert(be(v4 as nat, 4) =~= be(v5 as nat, 3).push((v4 % 256) as u8));
        assert(be(v3 as nat, 5) =~= be(v4 as nat, 4).push((v3 % 256) as u8));
        assert(be(v2 as nat, 6) =~= be(v3 as nat, 5).push((v2 % 256) as u8));
        assert(be(v1 as nat, 7) =~= be(v2 as nat, 6).push((v1 % 256) as u8));
        assert(be64(v) =~= be(v1 as nat, 7).push((v % 256) as u8));
    }
    out.push((v7 % 256) as u8);
    out.push((v6 % 256) as u8);
    out.push((v5 % 256) as u8);
    out.push((v4 % 256) as u8);
    out.push((v3 % 256) as u8);
    out.push((v2 % 256) as u8);
    out.push((v1 % 256) as u8);
    out.push((v % 256) as u8);
    assert(out@ =~= old(out)@ + be64(v));
}

pub fn put_i32(out: &mut Vec<u8>, v: i32)
    ensures
        final(out)@ == old(out)@ + be_i32(v),
{
    put_u32(out, v as u32);
}

/// Appends the length prefix of a payload of `n` bytes.
pub fn put_len(out: &mut Vec<u8>, n: usize)
    ensures
        final(out)@ == old(out)@ + be_len(n as nat),
{
    put_i32(out, n as i32);
}

pub fn get_u16(bytes: &[u8], at: usize) -> (v: u16)
    requires
        at + 2 <= bytes@.len(),
    ensures
        v == un_be(bytes@.subrange(at as int, at + 2)),
{
    proof {
        reveal_with_fuel(un_be, 3);
        let s = bytes@.subrange(at as int, at + 2);
        assert(s.drop_last().drop_last() =~= Seq::<u8>::empty());
        assert(s.drop_last().last() == bytes@[at as int]);
    }
    bytes[at] as u16 * 256 + bytes[at + 1] as u16
}

pub fn get_u32(bytes: &[u8], at: usize) -> (v: u32)
    requires
        at + 4 <= bytes@.len(),
    ensures
        v == un_be(bytes@.subrange(at as int, at + 4)),
{
    proof {
        reveal_with_fuel(un_be, 5);
        let s = bytes@.subrange(at as int, at + 4);
        let s3 = s.drop_last();
        let s2 = s3.drop_last();
        let s1 = s2.drop_last();
        assert(s1.drop_last() =~= Seq::<u8>::empty());
        assert(s1.last() == bytes@[at as int]);
        assert(s2.last() == bytes@[at + 1]);
        assert(s3.last() == bytes@[at + 2]);
        assert(s.last() == bytes@[at + 3]);
    }
    ((bytes[at] as u32 * 256 + bytes[at + 1] as u32) * 256 + bytes[at + 2] as u32) * 256 + bytes[at
        + 3] as u32
}

proof fn lemma_un_be_split(s: Seq<u8>)
    requires
        s.len() == 8,
    ensures
        un_be(s) == un_be(s.subrange(0, 4)) * 0x1_0000_0000 + un_be(s.subrange(4, 8)),
{
    reveal_with_fuel(un_be, 9);
    let low = s.subrange(4, 8);
    let high = s.subrange(0, 4);
    let s7 = s.drop_last();
    let s6 = s7.drop_last();
    let s5 = s6.drop_last();
    let s4 = s5.drop_last();
    assert(s4 =~= high);
    let l3 = low.drop_last();
    let l2 = l3.drop_last();
    let l1 = l2.drop_last();
    assert(l1.drop_last() =~= Seq::<u8>::empty());
    assert(s.last() == low.last());
    assert(s7.last() == l3.last());
    assert(s6.last() == l2.last());
    assert(s5.last() == l1.last());
}

pub fn get_u64(bytes: &[u8], at: usize) -> (v: u64)
    requires
        at + 8 <= bytes@.len(),
    ensures
        v == un_be(bytes@.subrange(at as int, at + 8)),
{
    assert(bytes.len() >= at + 8);
    let high: u32 = get_u32(bytes, at);
    let low: u32 = get_u32(bytes, at + 4);
    proof {
        let s = bytes@.subrange(at as int, at + 8);
        lemma_un_be_split(s);
        assert(s.subrange(0, 4) =~= bytes@.subrange(at as int, at + 4));
        assert(s.subrange(4, 8) =~= bytes@.subrange(at + 4, at + 8));
    }
    high as u64 * 0x1_0000_0000 + low as u64
}

pub fn get_i32(bytes: &[u8], at: usize) -> (v: i32)
    requires
        at + 4 <= bytes@.len(),
    ensures
        v == i32_of(bytes@.subrange(at as int, at + 4)),
{
    get_u32(bytes, at) as i32
}

/// Whether two byte slices hold the same bytes.
pub fn same_bytes(a: &[u8], b: &[u8]) -> (r: bool)
    ensures
        r == (a@ == b@),
{
    if a.len() != b.len() {
        return false;
    }
    let mut i: usize = 0;
    while i < a.len()
        invariant
            i <= a@.len(),
            a@.len() == b@.len(),
            forall|j: int| 0 <= j < i ==> a@[j] == b@[j],
        decreases a@.len() - i,
    {
        if a[i] != b[i] {
            return false;
        }
        i += 1;
    }
    assert(a@ =~= b@);
    true
}

/// Whether `s` begins with `prefix`.
pub open spec fn has_prefix(s: Seq<u8>, prefix: Seq<u8>) -> bool {
    prefix.len() <= s.len() && s.subrange(0, prefix.len() as int) == prefix
}

pub fn starts_with(s: &[u8], prefix: &[u8]) -> (r: bool)
    ensures
        r == has_prefix(s@, prefix@),
{
    if s.len() < prefix.len() {
        return false;
    }
    same_bytes(&s[0..prefix.len()], prefix)
}

} // verus!
