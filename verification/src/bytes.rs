//! Little-endian integers inside byte sequences.

use vstd::prelude::*;
use vstd::array::spec_array_update;

verus! {

/// The bytes of `x`, the lowest first.
pub open spec fn u16_bytes(x: u16) -> Seq<u8> {
    seq![(x % 256) as u8, (x / 256) as u8]
}

/// The bytes of `x`, the lowest first.
pub open spec fn u32_bytes(x: u32) -> Seq<u8> {
    seq![
        (x % 256) as u8,
        (x / 0x100 % 256) as u8,
        (x / 0x1_0000 % 256) as u8,
        (x / 0x100_0000) as u8,
    ]
}

/// The 16-bit integer that stands at `at`.
pub open spec fn u16_at(b: Seq<u8>, at: int) -> u16 {
    (b[at] + 0x100 * b[at + 1]) as u16
}

/// The 32-bit integer that stands at `at`.
pub open spec fn u32_at(b: Seq<u8>, at: int) -> u32 {
    (b[at] + 0x100 * b[at + 1] + 0x1_0000 * b[at + 2] + 0x100_0000 * b[at + 3]) as u32
}

/// The bytes of the integers of `xs`, one after the other.
pub open spec fn u32s_bytes(xs: Seq<u32>) -> Seq<u8> {
    Seq::new(4 * xs.len(), |i: int| u32_bytes(xs[i / 4])[i % 4])
}

/// The 32-bit integers that `b` is made of.
pub open spec fn u32s_of(b: Seq<u8>) -> Seq<u32> {
    Seq::new(b.len() / 4, |i: int| u32_at(b, 4 * i))
}

/// `b` with `data` in the place of the bytes from `at` on.
pub open spec fn overwrite(b: Seq<u8>, at: int, data: Seq<u8>) -> Seq<u8> {
    Seq::new(
        b.len(),
        |i: int|
            if at <= i < at + data.len() {
                data[i - at]
            } else {
                b[i]
            },
    )
}

/// The bytes of a 16-bit integer that was read are the bytes it was read from.
pub proof fn lemma_u16_at_bytes(b: Seq<u8>, at: int)
    requires
        0 <= at,
        at + 2 <= b.len(),
    ensures
        u16_bytes(u16_at(b, at)) == b.subrange(at, at + 2),
{
    assert(u16_bytes(u16_at(b, at)) =~= b.subrange(at, at + 2));
}

/// The bytes of a 32-bit integer that was read are the bytes it was read from.
pub proof fn lemma_u32_at_bytes(b: Seq<u8>, at: int)
    requires
        0 <= at,
        at + 4 <= b.len(),
    ensures
        u32_bytes(u32_at(b, at)) == b.subrange(at, at + 4),
{
    let x = u32_at(b, at);
    lemma_digits(b[at] as int, b[at + 1] as int, b[at + 2] as int, b[at + 3] as int);
    assert(u32_bytes(x)[0] == b[at]);
    assert(u32_bytes(x)[1] == b[at + 1]);
    assert(u32_bytes(x)[2] == b[at + 2]);
    assert(u32_bytes(x)[3] == b[at + 3]);
    assert(u32_bytes(x) =~= b.subrange(at, at + 4));
}

/// A number is made of four digits to the base 256 in one way only.
proof fn lemma_digits(a: int, b: int, c: int, d: int)
    requires
        0 <= a < 256,
        0 <= b < 256,
        0 <= c < 256,
        0 <= d < 256,
    ensures
        ({
            let x = a + 0x100 * b + 0x1_0000 * c + 0x100_0000 * d;
            &&& x % 256 == a
            &&& x / 0x100 % 256 == b
            &&& x / 0x1_0000 % 256 == c
            &&& x / 0x100_0000 == d
            &&& 0 <= x <= u32::MAX
        }),
{
    let x = a + 0x100 * b + 0x1_0000 * c + 0x100_0000 * d;
    assert(x / 0x100 == b + 0x100 * c + 0x1_0000 * d);
    assert(x / 0x1_0000 == c + 0x100 * d);
}

/// A 16-bit integer can be read back from its bytes.
pub proof fn lemma_u16_bytes_at(x: u16)
    ensures
        u16_bytes(x).len() == 2,
        u16_at(u16_bytes(x), 0) == x,
{
}

/// A 32-bit integer can be read back from its bytes.
pub proof fn lemma_u32_bytes_at(x: u32)
    ensures
        u32_bytes(x).len() == 4,
        u32_at(u32_bytes(x), 0) == x,
{
}

/// One more integer adds its bytes at the end.
proof fn lemma_u32s_push(xs: Seq<u32>, x: u32)
    ensures
        u32s_bytes(xs.push(x)) == u32s_bytes(xs) + u32_bytes(x),
{
    let more = xs.push(x);
    let joined = u32s_bytes(xs) + u32_bytes(x);
    assert forall|j: int| 0 <= j < 4 * more.len() implies u32s_bytes(more)[j] == joined[j] by {
        if j < 4 * xs.len() {
            assert(more[j / 4] == xs[j / 4]);
        } else {
            assert(j / 4 == xs.len());
        }
    }
    assert(u32s_bytes(more) =~= joined);
}

/// Integers can be read back from their bytes.
pub proof fn lemma_u32s_round_trip(xs: Seq<u32>)
    ensures
        u32s_of(u32s_bytes(xs)) == xs,
{
    let b = u32s_bytes(xs);
    assert forall|i: int| 0 <= i < xs.len() implies u32_at(b, 4 * i) == xs[i] by {
        lemma_u32_bytes_at(xs[i]);
        assert(b[4 * i] == u32_bytes(xs[i])[0]);
        assert(b[4 * i + 1] == u32_bytes(xs[i])[1]);
        assert(b[4 * i + 2] == u32_bytes(xs[i])[2]);
        assert(b[4 * i + 3] == u32_bytes(xs[i])[3]);
    }
    assert(u32s_of(b) =~= xs);
}

/// Bytes that make up whole integers are the bytes of those integers.
pub proof fn lemma_bytes_round_trip(b: Seq<u8>)
    requires
        b.len() % 4 == 0,
    ensures
        u32s_bytes(u32s_of(b)) == b,
{
    let xs = u32s_of(b);
    assert forall|i: int| 0 <= i < b.len() implies u32s_bytes(xs)[i] == b[i] by {
        let k = i / 4;
        assert(0 <= k < xs.len());
        lemma_u32_at_bytes(b, 4 * k);
        assert(u32_bytes(xs[k])[i % 4] == b.subrange(4 * k, 4 * k + 4)[i % 4]);
        assert(4 * k + i % 4 == i);
    }
    assert(u32s_bytes(xs) =~= b);
}

/// The bytes of `b` from `lo` to `at` and the 16-bit integer that follows.
pub proof fn lemma_join_u16(b: Seq<u8>, lo: int, at: int)
    requires
        0 <= lo <= at,
        at + 2 <= b.len(),
    ensures
        b.subrange(lo, at) + u16_bytes(u16_at(b, at)) == b.subrange(lo, at + 2),
{
    lemma_u16_at_bytes(b, at);
    lemma_join_bytes(b, lo, at, at + 2);
}

/// The bytes of `b` from `lo` to `at` and the 32-bit integer that follows.
pub proof fn lemma_join_u32(b: Seq<u8>, lo: int, at: int)
    requires
        0 <= lo <= at,
        at + 4 <= b.len(),
    ensures
        b.subrange(lo, at) + u32_bytes(u32_at(b, at)) == b.subrange(lo, at + 4),
{
    lemma_u32_at_bytes(b, at);
    lemma_join_bytes(b, lo, at, at + 4);
}

/// The bytes of `b` from `lo` to `at` and those up to `end`.
pub proof fn lemma_join_bytes(b: Seq<u8>, lo: int, at: int, end: int)
    requires
        0 <= lo <= at <= end <= b.len(),
    ensures
        b.subrange(lo, at) + b.subrange(at, end) == b.subrange(lo, end),
{
    assert(b.subrange(lo, at) + b.subrange(at, end) =~= b.subrange(lo, end));
}

/// Where `p` and `x` stand in `e` from `lo` on, `x` stands behind `p`.
pub proof fn lemma_last_bytes(e: Seq<u8>, lo: int, p: Seq<u8>, x: Seq<u8>)
    requires
        0 <= lo,
        lo + p.len() + x.len() <= e.len(),
        e.subrange(lo, lo + p.len() + x.len()) == p + x,
    ensures
        e.subrange(lo, lo + p.len()) == p,
        e.subrange(lo + p.len(), lo + p.len() + x.len()) == x,
{
    let both = e.subrange(lo, lo + p.len() + x.len());
    assert forall|i: int| 0 <= i < both.len() implies e[lo + i] == (p + x)[i] by {
        assert(both[i] == e[lo + i]);
    }
    assert(e.subrange(lo, lo + p.len()) =~= p);
    assert(e.subrange(lo + p.len(), lo + p.len() + x.len()) =~= x) by {
        assert forall|i: int| 0 <= i < x.len() implies e[lo + p.len() + i] == x[i] by {
            assert((p + x)[p.len() + i] == x[i]);
        }
    }
}

/// Where `p` and the bytes of `x` stand in `e` from `lo` on, `x` stands behind
/// `p`.
pub proof fn lemma_last_u16(e: Seq<u8>, lo: int, p: Seq<u8>, x: u16)
    requires
        0 <= lo,
        lo + p.len() + 2 <= e.len(),
        e.subrange(lo, lo + p.len() + 2) == p + u16_bytes(x),
    ensures
        e.subrange(lo, lo + p.len()) == p,
        u16_at(e, lo + p.len()) == x,
{
    lemma_last_bytes(e, lo, p, u16_bytes(x));
    lemma_first_u16(e, lo + p.len(), x);
}

/// Where `p` and the bytes of `x` stand in `e` from `lo` on, `x` stands behind
/// `p`.
pub proof fn lemma_last_u32(e: Seq<u8>, lo: int, p: Seq<u8>, x: u32)
    requires
        0 <= lo,
        lo + p.len() + 4 <= e.len(),
        e.subrange(lo, lo + p.len() + 4) == p + u32_bytes(x),
    ensures
        e.subrange(lo, lo + p.len()) == p,
        u32_at(e, lo + p.len()) == x,
{
    lemma_last_bytes(e, lo, p, u32_bytes(x));
    lemma_first_u32(e, lo + p.len(), x);
}

/// Where the bytes of `x` stand, `x` stands.
pub proof fn lemma_first_u16(e: Seq<u8>, at: int, x: u16)
    requires
        0 <= at,
        at + 2 <= e.len(),
        e.subrange(at, at + 2) == u16_bytes(x),
    ensures
        u16_at(e, at) == x,
{
    let own = e.subrange(at, at + 2);
    assert(own[0] == e[at] && own[1] == e[at + 1]);
    lemma_u16_bytes_at(x);
}

/// Where the bytes of `x` stand, `x` stands.
pub proof fn lemma_first_u32(e: Seq<u8>, at: int, x: u32)
    requires
        0 <= at,
        at + 4 <= e.len(),
        e.subrange(at, at + 4) == u32_bytes(x),
    ensures
        u32_at(e, at) == x,
{
    let own = e.subrange(at, at + 4);
    assert(own[0] == e[at] && own[1] == e[at + 1]);
    assert(own[2] == e[at + 2] && own[3] == e[at + 3]);
    lemma_u32_bytes_at(x);
}

/// Reads a little-endian number.
pub fn get_u16(b: &Vec<u8>, at: usize) -> (x: u16)
    requires
        at + 2 <= b.len(),
    ensures
        x == u16_at(b@, at as int),
{
    b[at] as u16 + 0x100 * (b[at + 1] as u16)
}

/// Reads a little-endian number.
pub fn get_u32(b: &Vec<u8>, at: usize) -> (x: u32)
    requires
        at + 4 <= b.len(),
    ensures
        x == u32_at(b@, at as int),
{
    b[at] as u32 + 0x100 * (b[at + 1] as u32) + 0x1_0000 * (b[at + 2] as u32) + 0x100_0000 * (
    b[at + 3] as u32)
}

/// Appends a byte.
pub fn push_byte(b: &mut Vec<u8>, x: u8)
    ensures
        final(b)@ == old(b)@ + seq![x],
{
    b.push(x);
    assert(b@ =~= old(b)@ + seq![x]);
}

/// Appends a little-endian number.
pub fn push_u16(b: &mut Vec<u8>, x: u16)
    ensures
        final(b)@ == old(b)@ + u16_bytes(x),
{
    b.push((x % 256) as u8);
    b.push((x / 256) as u8);
    assert(b@ =~= old(b)@ + u16_bytes(x));
}

/// Appends a little-endian number.
pub fn push_u32(b: &mut Vec<u8>, x: u32)
    ensures
        final(b)@ == old(b)@ + u32_bytes(x),
{
    b.push((x % 256) as u8);
    b.push((x / 0x100 % 256) as u8);
    b.push((x / 0x1_0000 % 256) as u8);
    b.push((x / 0x100_0000) as u8);
    assert(b@ =~= old(b)@ + u32_bytes(x));
}

/// Appends bytes.
pub fn push_bytes(b: &mut Vec<u8>, data: &[u8])
    ensures
        final(b)@ == old(b)@ + data@,
{
    let ghost before = b@;
    let mut i: usize = 0;
    while i < data.len()
        invariant
            i <= data@.len(),
            b@ == before + data@.take(i as int),
        decreases data@.len() - i,
    {
        b.push(data[i]);
        i = i + 1;
        assert(b@ =~= before + data@.take(i as int));
    }
    assert(data@.take(data@.len() as int) =~= data@);
}

/// Appends little-endian numbers.
pub fn push_words(b: &mut Vec<u8>, words: &[u32])
    ensures
        final(b)@ == old(b)@ + u32s_bytes(words@),
{
    let ghost before = b@;
    let mut i: usize = 0;
    assert(b@ =~= before + u32s_bytes(words@.take(0)));
    while i < words.len()
        invariant
            i <= words@.len(),
            b@ == before + u32s_bytes(words@.take(i as int)),
        decreases words@.len() - i,
    {
        push_u32(b, words[i]);
        proof {
            lemma_u32s_push(words@.take(i as int), words@[i as int]);
            assert(words@.take(i as int).push(words@[i as int]) =~= words@.take(i + 1));
            assert(b@ =~= before + u32s_bytes(words@.take(i + 1)));
        }
        i = i + 1;
    }
    assert(words@.take(words@.len() as int) =~= words@);
}

/// Copies the bytes of `b` from `at` on into `out`.
pub fn fill_bytes(out: &mut [u8], b: &Vec<u8>, at: usize)
    requires
        at + old(out)@.len() <= b.len(),
    ensures
        final(out)@ == b@.subrange(at as int, at + old(out)@.len()),
{
    let n: usize = out.len();
    let mut i: usize = 0;
    while i < n
        invariant
            i <= n,
            n == out@.len(),
            at + n <= b.len(),
            forall|j: int| 0 <= j < i ==> out@[j] == b@[at + j],
        decreases n - i,
    {
        out[i] = b[at + i];
        i = i + 1;
    }
    assert(out@ =~= b@.subrange(at as int, at + n));
}

/// Reads the 32-bit integers of `b` from `at` on into `out`.
pub fn fill_words(out: &mut [u32], b: &Vec<u8>, at: usize)
    requires
        at + 4 * old(out)@.len() <= b.len(),
    ensures
        final(out)@ == u32s_of(b@.subrange(at as int, at + 4 * old(out)@.len())),
{
    let n: usize = out.len();
    let mut i: usize = 0;
    while i < n
        invariant
            i <= n,
            n == out@.len(),
            at + 4 * n <= b.len(),
            forall|j: int| 0 <= j < i ==> out@[j] == u32_at(b@, at + 4 * j),
        decreases n - i,
    {
        out[i] = get_u32(b, at + 4 * i);
        i = i + 1;
    }
    assert(out@ =~= u32s_of(b@.subrange(at as int, at + 4 * n)));
}

/// Puts `data` in the place of the bytes from `at` on.
pub fn put_bytes(b: &mut Vec<u8>, at: usize, data: &Vec<u8>)
    requires
        at + data.len() <= old(b).len(),
    ensures
        final(b)@ == overwrite(old(b)@, at as int, data@),
{
    let ghost before = b@;
    let mut i: usize = 0;
    while i < data.len()
        invariant
            i <= data@.len(),
            at + data.len() <= before.len(),
            before.len() == b.len(),
            b@ == overwrite(before, at as int, data@.take(i as int)),
        decreases data@.len() - i,
    {
        b[at + i] = data[i];
        i = i + 1;
        assert(b@ =~= overwrite(before, at as int, data@.take(i as int)));
    }
    assert(data@.take(data@.len() as int) =~= data@);
    assert(b@ =~= overwrite(before, at as int, data@));
}

/// The `len` bytes of `b` from `at` on.
pub fn take_bytes(b: &Vec<u8>, at: usize, len: usize) -> (r: Vec<u8>)
    requires
        at + len <= b.len(),
    ensures
        r@ == b@.subrange(at as int, at + len),
{
    let mut r: Vec<u8> = Vec::new();
    let mut i: usize = 0;
    while i < len
        invariant
            i <= len,
            at + len <= b.len(),
            r@ == b@.subrange(at as int, at + i),
        decreases len - i,
    {
        r.push(b[at + i]);
        i = i + 1;
        assert(r@ =~= b@.subrange(at as int, at + i));
    }
    r
}

/// The 32-bit integers that `b` is made of.
pub fn words_from_bytes(b: &Vec<u8>) -> (xs: Vec<u32>)
    ensures
        xs@ == u32s_of(b@),
{
    let n: usize = b.len() / 4;
    let mut xs: Vec<u32> = Vec::new();
    let mut i: usize = 0;
    while i < n
        invariant
            i <= n,
            n == b.len() / 4,
            xs@ == u32s_of(b@).take(i as int),
        decreases n - i,
    {
        xs.push(get_u32(b, 4 * i));
        i = i + 1;
        assert(xs@ =~= u32s_of(b@).take(i as int));
    }
    assert(xs@ =~= u32s_of(b@));
    xs
}

/// The bytes of the integers of `xs`, one after the other.
pub fn words_to_bytes(xs: &Vec<u32>) -> (b: Vec<u8>)
    ensures
        b@ == u32s_bytes(xs@),
{
    let mut b: Vec<u8> = Vec::new();
    push_words(&mut b, xs.as_slice());
    assert(b@ =~= u32s_bytes(xs@));
    b
}

/// An array with its first `n` elements taken from `s`.
spec fn array_prefix<T, const N: usize>(a: [T; N], s: Seq<T>, n: nat) -> [T; N]
    decreases n,
{
    if n == 0 {
        a
    } else {
        spec_array_update(array_prefix(a, s, (n - 1) as nat), n - 1, s[n - 1])
    }
}

proof fn lemma_array_prefix<T, const N: usize>(a: [T; N], s: Seq<T>, n: nat)
    requires
        n <= N,
    ensures
        forall|i: int| 0 <= i < n ==> array_prefix(a, s, n)@[i] == s[i],
    decreases n,
{
    if n > 0 {
        lemma_array_prefix(a, s, (n - 1) as nat);
    }
}

/// Every sequence of the right length is that of an array.
pub proof fn lemma_array_of<T, const N: usize>(s: Seq<T>) -> (a: [T; N])
    requires
        s.len() == N,
    ensures
        a@ == s,
{
    let a: [T; N] = array_prefix(arbitrary(), s, N as nat);
    lemma_array_prefix::<T, N>(arbitrary(), s, N as nat);
    assert(a@ =~= s);
    a
}

} // verus!
