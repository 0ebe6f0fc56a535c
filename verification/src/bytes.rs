//! Byte strings: fixed-width integer encodings in both byte orders, and the
//! copying and comparing of byte strings that every encoding here is made of.

use vstd::prelude::*;

verus! {

/// 256 to the power `len`: how many values `len` bytes tell apart.
pub open spec fn pow256(len: nat) -> nat
    decreases len,
{
    if len == 0 {
        1
    } else {
        256 * pow256((len - 1) as nat)
    }
}

/// The little-endian encoding of `n` in `len` bytes (of `n` modulo
/// [`pow256`]`(len)` where it does not fit).
pub open spec fn le_bytes(n: nat, len: nat) -> Seq<u8>
    decreases len,
{
    if len == 0 {
        Seq::empty()
    } else {
        seq![(n % 256) as u8] + le_bytes(n / 256, (len - 1) as nat)
    }
}

/// The number that a byte string denotes in little-endian order.
pub open spec fn le_value(s: Seq<u8>) -> nat
    decreases s.len(),
{
    if s.len() == 0 {
        0
    } else {
        s[0] as nat + 256 * le_value(s.skip(1))
    }
}

/// The big-endian encoding of `n` in `len` bytes.
pub open spec fn be_bytes(n: nat, len: nat) -> Seq<u8> {
    le_bytes(n, len).reverse()
}

/// The number that a byte string denotes in big-endian order.
pub open spec fn be_value(s: Seq<u8>) -> nat {
    le_value(s.reverse())
}

/// The two's-complement reading of a signed 64-bit integer.
pub open spec fn i64_bits(v: i64) -> nat {
    if v >= 0 {
        v as nat
    } else {
        (v + 0x1_0000_0000_0000_0000) as nat
    }
}

/// The signed 64-bit integer with these two's-complement bits.
pub open spec fn i64_of_bits(n: nat) -> i64 {
    if n < 0x8000_0000_0000_0000 {
        n as i64
    } else {
        (n - 0x1_0000_0000_0000_0000) as i64
    }
}

pub proof fn lemma_le_bytes_len(n: nat, len: nat)
    ensures
        le_bytes(n, len).len() == len,
    decreases len,
{
    if len > 0 {
        lemma_le_bytes_len(n / 256, (len - 1) as nat);
    }
}

pub proof fn lemma_be_bytes_len(n: nat, len: nat)
    ensures
        be_bytes(n, len).len() == len,
{
    lemma_le_bytes_len(n, len);
}

/// Reading a little-endian encoding gives the number back, where it fits.
pub proof fn lemma_le_value_of_bytes(n: nat, len: nat)
    requires
        n < pow256(len),
    ensures
        le_value(le_bytes(n, len)) == n,
    decreases len,
{
    if len > 0 {
        assert(n / 256 < pow256((len - 1) as nat)) by (nonlinear_arith)
            requires
                n < 256 * pow256((len - 1) as nat),
        ;
        lemma_le_value_of_bytes(n / 256, (len - 1) as nat);
        lemma_le_bytes_len(n, len);
        assert(le_bytes(n, len).skip(1) =~= le_bytes(n / 256, (len - 1) as nat));
    }
}

/// A byte string is the little-endian encoding of the number it denotes.
pub proof fn lemma_le_bytes_of_value(s: Seq<u8>)
    ensures
        le_bytes(le_value(s), s.len()) == s,
    decreases s.len(),
{
    if s.len() > 0 {
        lemma_le_bytes_of_value(s.skip(1));
        let rest = le_value(s.skip(1));
        let whole = s[0] as nat + 256 * rest;
        assert(whole % 256 == s[0] as nat && whole / 256 == rest) by (nonlinear_arith)
            requires
                whole == s[0] as nat + 256 * rest,
                s[0] < 256,
        ;
        assert(le_bytes(whole, s.len()) =~= seq![s[0]] + s.skip(1));
        assert(seq![s[0]] + s.skip(1) =~= s);
    } else {
        assert(le_bytes(le_value(s), s.len()) =~= s);
    }
}

pub proof fn lemma_le_value_bound(s: Seq<u8>)
    ensures
        le_value(s) < pow256(s.len()),
    decreases s.len(),
{
    if s.len() > 0 {
        lemma_le_value_bound(s.skip(1));
    }
}

/// Reading a big-endian encoding gives the number back, where it fits.
pub proof fn lemma_be_value_of_bytes(n: nat, len: nat)
    requires
        n < pow256(len),
    ensures
        be_value(be_bytes(n, len)) == n,
{
    lemma_le_value_of_bytes(n, len);
    assert(be_bytes(n, len).reverse() =~= le_bytes(n, len));
}

/// A byte string is the big-endian encoding of the number it denotes.
pub proof fn lemma_be_bytes_of_value(s: Seq<u8>)
    ensures
        be_bytes(be_value(s), s.len()) == s,
{
    lemma_le_bytes_of_value(s.reverse());
    assert(s.reverse().reverse() =~= s);
}

pub proof fn lemma_be_value_bound(s: Seq<u8>)
    ensures
        be_value(s) < pow256(s.len()),
{
    lemma_le_value_bound(s.reverse());
}

/// The powers that the integer widths use.
pub proof fn lemma_pow256()
    ensures
        pow256(1) == 0x100,
        pow256(4) == 0x1_0000_0000,
        pow256(8) == 0x1_0000_0000_0000_0000,
        pow256(16) == 0x1_0000_0000_0000_0000 * 0x1_0000_0000_0000_0000,
{
    reveal_with_fuel(pow256, 17);
}

pub proof fn lemma_pow256_positive(len: nat)
    ensures
        pow256(len) > 0,
    decreases len,
{
    if len > 0 {
        lemma_pow256_positive((len - 1) as nat);
    }
}

/// The two encodings of a signed integer are inverse to each other.
pub proof fn lemma_i64_bits(v: i64, n: nat)
    ensures
        i64_bits(v) < 0x1_0000_0000_0000_0000,
        i64_of_bits(i64_bits(v)) == v,
        n < 0x1_0000_0000_0000_0000 ==> i64_bits(i64_of_bits(n)) == n,
{
}

/// Two concatenations of pieces of equal length agree only where the pieces do.
pub proof fn lemma_concat_injective(a: Seq<u8>, b: Seq<u8>, c: Seq<u8>, d: Seq<u8>)
    requires
        a + b == c + d,
        a.len() == c.len(),
    ensures
        a == c,
        b == d,
{
    assert(a =~= (a + b).take(a.len() as int));
    assert(c =~= (c + d).take(a.len() as int));
    assert(b =~= (a + b).skip(a.len() as int));
    assert(d =~= (c + d).skip(a.len() as int));
}

/// The byte strings of a list, one after the other.
pub open spec fn flat(parts: Seq<Seq<u8>>) -> Seq<u8>
    decreases parts.len(),
{
    if parts.len() == 0 {
        Seq::empty()
    } else {
        flat(parts.drop_last()) + parts.last()
    }
}

/// What a list of 32-byte strings looks like to a specification.
pub open spec fn views32(list: Seq<[u8; 32]>) -> Seq<Seq<u8>> {
    Seq::new(list.len(), |i: int| list[i]@)
}

pub proof fn lemma_views32_push(list: Seq<[u8; 32]>, x: [u8; 32])
    ensures
        views32(list.push(x)) == views32(list).push(x@),
{
    assert(views32(list.push(x)) =~= views32(list).push(x@));
}

/// Appends `s` to `out`.
pub fn push_all(out: &mut Vec<u8>, s: &[u8])
    ensures
        final(out)@ == old(out)@ + s@,
{
    out.extend_from_slice(s);
    assert(out@ =~= old(out)@ + s@);
}

/// Appends the little-endian encoding of `n` in `len` bytes.
pub fn push_le(out: &mut Vec<u8>, n: u128, len: usize)
    ensures
        final(out)@ == old(out)@ + le_bytes(n as nat, len as nat),
{
    let mut rest: u128 = n;
    let mut i: usize = 0;
    while i < len
        invariant
            0 <= i <= len,
            old(out)@ + le_bytes(n as nat, len as nat) == out@ + le_bytes(
                rest as nat,
                (len - i) as nat,
            ),
        decreases len - i,
    {
        let ghost before = out@;
        out.push((rest % 256) as u8);
        proof {
            assert(le_bytes(rest as nat, (len - i) as nat) == seq![(rest as nat % 256) as u8]
                + le_bytes(rest as nat / 256, (len - i - 1) as nat));
            assert(before + le_bytes(rest as nat, (len - i) as nat) =~= out@ + le_bytes(
                rest as nat / 256,
                (len - i - 1) as nat,
            ));
        }
        rest = rest / 256;
        i = i + 1;
    }
    assert(out@ + le_bytes(rest as nat, 0) =~= out@);
}

/// Appends the big-endian encoding of `n` in `len` bytes.
pub fn push_be(out: &mut Vec<u8>, n: u128, len: usize)
    ensures
        final(out)@ == old(out)@ + be_bytes(n as nat, len as nat),
{
    let mut low: Vec<u8> = Vec::new();
    push_le(&mut low, n, len);
    proof {
        lemma_le_bytes_len(n as nat, len as nat);
        assert(low@ =~= le_bytes(n as nat, len as nat));
    }
    let mut i: usize = len;
    while i > 0
        invariant
            0 <= i <= len,
            low@ == le_bytes(n as nat, len as nat),
            low@.len() == len,
            out@ == old(out)@ + low@.reverse().take(len - i),
        decreases i,
    {
        i = i - 1;
        out.push(low[i]);
        assert(low@.reverse().take(len - i) =~= low@.reverse().take(len - i - 1).push(low@[i as int]));
        assert(out@ =~= old(out)@ + low@.reverse().take(len - i));
    }
    assert(low@.reverse().take(len as int) =~= low@.reverse());
}

/// The number that at most sixteen bytes denote in little-endian order.
pub fn le_of(s: &[u8]) -> (n: u128)
    requires
        s@.len() <= 16,
    ensures
        n == le_value(s@),
{
    let mut n: u128 = 0;
    let mut i: usize = s.len();
    assert(s@.skip(s@.len() as int) =~= Seq::<u8>::empty());
    while i > 0
        invariant
            0 <= i <= s@.len() <= 16,
            n == le_value(s@.skip(i as int)),
        decreases i,
    {
        i = i - 1;
        proof {
            let tail = s@.skip(i + 1);
            assert(s@.skip(i as int).skip(1) =~= tail);
            lemma_le_value_bound(tail);
            lemma_pow256();
            lemma_pow256_monotone(tail.len(), 15);
            reveal_with_fuel(pow256, 17);
        }
        n = n * 256 + s[i] as u128;
    }
    assert(s@.skip(0) =~= s@);
    n
}

pub proof fn lemma_pow256_monotone(a: nat, b: nat)
    requires
        a <= b,
    ensures
        pow256(a) <= pow256(b),
    decreases b - a,
{
    if a < b {
        lemma_pow256_monotone(a, (b - 1) as nat);
    }
}

/// The number that at most sixteen bytes denote in big-endian order.
pub fn be_of(s: &[u8]) -> (n: u128)
    requires
        s@.len() <= 16,
    ensures
        n == be_value(s@),
{
    let mut back: Vec<u8> = Vec::new();
    let mut i: usize = s.len();
    while i > 0
        invariant
            0 <= i <= s@.len(),
            back@ == s@.reverse().take(s@.len() - i),
        decreases i,
    {
        i = i - 1;
        back.push(s[i]);
        assert(back@ =~= s@.reverse().take(s@.len() - i));
    }
    assert(s@.reverse().take(s@.len() as int) =~= s@.reverse());
    le_of(back.as_slice())
}

/// The signed integer with the two's-complement bits `n`.
pub fn i64_from_bits(n: u64) -> (v: i64)
    ensures
        v == i64_of_bits(n as nat),
{
    if n < 0x8000_0000_0000_0000 {
        n as i64
    } else {
        (n as i128 - 0x1_0000_0000_0000_0000) as i64
    }
}

/// The two's-complement bits of a signed integer.
pub fn i64_to_bits(v: i64) -> (n: u64)
    ensures
        n == i64_bits(v),
{
    if v >= 0 {
        v as u64
    } else {
        (v as i128 + 0x1_0000_0000_0000_0000) as u64
    }
}

/// The low 32 bits of a length.
pub fn low_u32(n: usize) -> (r: u32)
    ensures
        r == n as int % 0x1_0000_0000,
{
    (n as u64 % 0x1_0000_0000) as u32
}

/// Copies `N` bytes into an array.
pub fn to_array<const N: usize>(s: &[u8]) -> (a: [u8; N])
    requires
        s@.len() == N,
    ensures
        a@ == s@,
{
    let mut a: [u8; N] = vstd::array::array_fill_for_copy_types(0u8);
    let mut i: usize = 0;
    while i < N
        invariant
            0 <= i <= N,
            s@.len() == N,
            a@.len() == N,
            forall|j: int| 0 <= j < i ==> a@[j] == s@[j],
        decreases N - i,
    {
        a[i] = s[i];
        i = i + 1;
    }
    assert(a@ =~= s@);
    a
}

/// Copies a byte string.
pub fn copy(s: &[u8]) -> (out: Vec<u8>)
    ensures
        out@ == s@,
{
    let mut out: Vec<u8> = Vec::new();
    push_all(&mut out, s);
    assert(Seq::<u8>::empty() + s@ =~= s@);
    out
}

/// Whether two byte strings are the same.
pub fn same(a: &[u8], b: &[u8]) -> (r: bool)
    ensures
        r == (a@ == b@),
{
    if a.len() != b.len() {
        return false;
    }
    let mut i: usize = 0;
    while i < a.len()
        invariant
            0 <= i <= a@.len(),
            a@.len() == b@.len(),
            forall|j: int| 0 <= j < i ==> a@[j] == b@[j],
        decreases a@.len() - i,
    {
        if a[i] != b[i] {
            return false;
        }
        i = i + 1;
    }
    assert(a@ =~= b@);
    true
}

/// Copies a list of 32-byte strings.
pub fn copy32(list: &[[u8; 32]]) -> (out: Vec<[u8; 32]>)
    ensures
        out@ == list@,
{
    let mut out: Vec<[u8; 32]> = Vec::new();
    let mut i: usize = 0;
    while i < list.len()
        invariant
            0 <= i <= list@.len(),
            out@ == list@.take(i as int),
        decreases list@.len() - i,
    {
        out.push(list[i]);
        assert(out@ =~= list@.take(i + 1));
        i = i + 1;
    }
    assert(list@.take(i as int) =~= list@);
    out
}

} // verus!
