//! Little-endian byte encodings, and that they can be read back.
use vstd::arithmetic::power::*;
use vstd::prelude::*;

verus! {

/// The `n` least significant bytes of a number, least significant first.
pub open spec fn le_bytes(v: int, n: nat) -> Seq<u8>
    decreases n,
{
    if n == 0 {
        Seq::empty()
    } else {
        seq![(v % 256) as u8] + le_bytes(v / 256, (n - 1) as nat)
    }
}

/// The number has no more than `n` bytes.
pub open spec fn byte_sized(v: int, n: nat) -> bool
    decreases n,
{
    if n == 0 {
        v == 0
    } else {
        v >= 0 && byte_sized(v / 256, (n - 1) as nat)
    }
}

/// The bits of a signed 64-bit integer, read without a sign.
pub open spec fn unsigned_bits(v: int) -> int {
    if v < 0 {
        v + 0x1_0000_0000_0000_0000
    } else {
        v
    }
}

pub proof fn lemma_le_len(v: int, n: nat)
    ensures
        le_bytes(v, n).len() == n,
    decreases n,
{
    if n > 0 {
        lemma_le_len(v / 256, (n - 1) as nat);
    }
}

/// A number that fits can be read back from its bytes.
pub proof fn lemma_le_injective(v: int, w: int, n: nat)
    requires
        byte_sized(v, n),
        byte_sized(w, n),
        le_bytes(v, n) == le_bytes(w, n),
    ensures
        v == w,
    decreases n,
{
    if n > 0 {
        let (a, b) = (le_bytes(v, n), le_bytes(w, n));
        assert(a[0] == (v % 256) as u8);
        assert(b[0] == (w % 256) as u8);
        assert(a.skip(1) =~= le_bytes(v / 256, (n - 1) as nat));
        assert(b.skip(1) =~= le_bytes(w / 256, (n - 1) as nat));
        lemma_le_injective(v / 256, w / 256, (n - 1) as nat);
    }
}

pub proof fn lemma_byte_sized_64(v: int)
    requires
        0 <= v < 0x1_0000_0000_0000_0000,
    ensures
        byte_sized(v, 8),
{
    reveal_with_fuel(byte_sized, 9);
    let (v1, v2) = (v / 256, v / 256 / 256);
    let (v3, v4) = (v2 / 256, v2 / 256 / 256);
    let (v5, v6) = (v4 / 256, v4 / 256 / 256);
    let (v7, v8) = (v6 / 256, v6 / 256 / 256);
    assert(0 <= v8 < 1);
}

/// Two byte strings that start with encodings of the same length: the encoded numbers agree
/// where the byte strings do, and so do the rests.
pub proof fn lemma_le_unambiguous(v: int, w: int, n: nat, s: Seq<u8>, t: Seq<u8>)
    requires
        byte_sized(v, n),
        byte_sized(w, n),
        le_bytes(v, n) + s == le_bytes(w, n) + t,
    ensures
        v == w,
        s == t,
{
    lemma_le_len(v, n);
    lemma_le_len(w, n);
    lemma_same_split(le_bytes(v, n), s, le_bytes(w, n), t);
    lemma_le_injective(v, w, n);
}

/// Concatenations whose first parts have the same length agree part by part.
pub proof fn lemma_same_split<A>(a: Seq<A>, s: Seq<A>, b: Seq<A>, t: Seq<A>)
    requires
        a.len() == b.len(),
        a + s == b + t,
    ensures
        a == b,
        s == t,
{
    let n = a.len() as int;
    assert(a =~= (a + s).take(n));
    assert(b =~= (b + t).take(n));
    assert(s =~= (a + s).skip(n));
    assert(t =~= (b + t).skip(n));
}

/// Appends the bytes of a number, least significant first.
pub fn push_le(bytes: &mut Vec<u8>, v: u64, n: usize)
    ensures
        final(bytes)@ == old(bytes)@ + le_bytes(v as int, n as nat),
{
    let ghost before = bytes@;
    let mut rest: u64 = v;
    let mut i: usize = 0;
    assert(before + le_bytes(v as int, n as nat) =~= bytes@ + le_bytes(rest as int, n as nat));
    while i < n
        invariant
            i <= n,
            before + le_bytes(v as int, n as nat) == bytes@ + le_bytes(
                rest as int,
                (n - i) as nat,
            ),
        decreases n - i,
    {
        let ghost prev = bytes@;
        let ghost tail = le_bytes(rest as int / 256, (n - i - 1) as nat);
        bytes.push((rest % 256) as u8);
        assert(prev + (seq![(rest % 256) as u8] + tail) =~= bytes@ + tail);
        rest = rest / 256;
        i += 1;
    }
    assert(bytes@ + le_bytes(rest as int, 0) =~= bytes@);
}

/// Appends the eight bytes of a signed integer, least significant first.
pub fn push_le_i64(bytes: &mut Vec<u8>, v: i64)
    ensures
        final(bytes)@ == old(bytes)@ + le_bytes(unsigned_bits(v as int), 8),
{
    let bits: u64 = if v < 0 {
        (v as i128 + 0x1_0000_0000_0000_0000i128) as u64
    } else {
        v as u64
    };
    push_le(bytes, bits, 8);
}

/// Appends bytes.
pub fn push_all(bytes: &mut Vec<u8>, more: &[u8])
    ensures
        final(bytes)@ == old(bytes)@ + more@,
{
    let ghost before = bytes@;
    let mut i: usize = 0;
    while i < more.len()
        invariant
            i <= more@.len(),
            bytes@ == before + more@.take(i as int),
        decreases more@.len() - i,
    {
        bytes.push(more[i]);
        assert(more@.take(i + 1) =~= more@.take(i as int).push(more@[i as int]));
        i += 1;
    }
    assert(more@.take(i as int) =~= more@);
}

/// Byte `i` of a number's encoding is its digit of weight `256` to the `i`: the least significant
/// byte stands first.
pub proof fn lemma_le_digits(v: int, n: nat, i: int)
    requires
        v >= 0,
        0 <= i < n,
    ensures
        le_bytes(v, n).len() == n,
        le_bytes(v, n)[i] == (v / pow(256, i as nat)) % 256,
    decreases n,
{
    lemma_le_len(v, n);
    let rest = le_bytes(v / 256, (n - 1) as nat);
    if i == 0 {
        lemma_pow0(256);
    } else {
        lemma_le_digits(v / 256, (n - 1) as nat, i - 1);
        lemma_pow_positive(256, (i - 1) as nat);
        lemma_pow_adds(256, 1, (i - 1) as nat);
        lemma_pow1(256);
        vstd::arithmetic::div_mod::lemma_div_denominator(v, 256, pow(256, (i - 1) as nat));
        assert(le_bytes(v, n)[i] == rest[i - 1]);
    }
}

/// The bits of a signed integer are read without a sign: two to the sixty-fourth is added where
/// the integer is negative, so the two are congruent and no two integers have the same bits.
pub proof fn lemma_unsigned_bits(v: int, w: int)
    requires
        -0x8000_0000_0000_0000 <= v < 0x8000_0000_0000_0000,
        -0x8000_0000_0000_0000 <= w < 0x8000_0000_0000_0000,
    ensures
        0 <= unsigned_bits(v) < 0x1_0000_0000_0000_0000,
        (unsigned_bits(v) - v) % 0x1_0000_0000_0000_0000 == 0,
        unsigned_bits(v) == unsigned_bits(w) ==> v == w,
{
}

} // verus!
