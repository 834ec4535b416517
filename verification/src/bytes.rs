//! Integers as little-endian bytes.

use vstd::prelude::*;

verus! {

/// The `n` lowest bytes of `x`, the lowest first.
pub open spec fn le_bytes(x: nat, n: nat) -> Seq<u8>
    decreases n,
{
    if n == 0 {
        Seq::empty()
    } else {
        seq![(x % 256) as u8] + le_bytes(x / 256, (n - 1) as nat)
    }
}

/// The number whose `n` little-endian bytes stand in `s` from `at` on.
pub open spec fn le_at(s: Seq<u8>, at: int, n: nat) -> nat
    decreases n,
{
    if n == 0 {
        0
    } else {
        s[at] as nat + 256 * le_at(s, at + 1, (n - 1) as nat)
    }
}

/// `256` to the power of `n`.
pub open spec fn pow256(n: nat) -> nat
    decreases n,
{
    if n == 0 {
        1
    } else {
        256 * pow256((n - 1) as nat)
    }
}

/// `n` bytes are written for `n` bytes asked.
pub proof fn le_bytes_len(x: nat, n: nat)
    ensures
        le_bytes(x, n).len() == n,
    decreases n,
{
    if n > 0 {
        le_bytes_len(x / 256, (n - 1) as nat);
    }
}

/// Reading the bytes of a number gives the number back.
pub proof fn le_round_trip(s: Seq<u8>, at: int, x: nat, n: nat)
    requires
        0 <= at,
        at + n <= s.len(),
        s.subrange(at, at + n) == le_bytes(x, n),
        x < pow256(n),
    ensures
        le_at(s, at, n) == x,
    decreases n,
{
    if n > 0 {
        let m = (n - 1) as nat;
        le_bytes_len(x / 256, m);
        assert(s[at] == s.subrange(at, at + n)[0]);
        assert(s.subrange(at + 1, at + 1 + m) =~= s.subrange(at, at + n).subrange(1, n as int));
        assert(le_bytes(x, n).subrange(1, n as int) =~= le_bytes(x / 256, m));
        le_round_trip(s, at + 1, x / 256, m);
    }
}

/// The number that some bytes are is written as those bytes.
pub proof fn le_writes_back(s: Seq<u8>, at: int, n: nat)
    requires
        0 <= at,
        at + n <= s.len(),
    ensures
        le_bytes(le_at(s, at, n), n) == s.subrange(at, at + n),
        le_at(s, at, n) < pow256(n),
    decreases n,
{
    if n > 0 {
        let m = (n - 1) as nat;
        le_writes_back(s, at + 1, m);
        let x = le_at(s, at, n);
        let rest = le_at(s, at + 1, m);
        assert(x == s[at] as nat + 256 * rest);
        assert(x / 256 == rest && x % 256 == s[at] as nat);
        assert(le_bytes(x, n) =~= s.subrange(at, at + n));
    } else {
        assert(le_bytes(le_at(s, at, n), n) =~= s.subrange(at, at + n));
    }
}

/// Puts `more` behind `out`.
pub fn append(out: &mut Vec<u8>, more: &[u8])
    ensures
        final(out)@ == old(out)@ + more@,
{
    let mut i: usize = 0;
    assert(old(out)@ + more@.take(0) =~= old(out)@);
    while i < more.len()
        invariant
            i <= more@.len(),
            out@ == old(out)@ + more@.take(i as int),
        decreases more@.len() - i,
    {
        out.push(more[i]);
        i += 1;
        assert(out@ =~= old(out)@ + more@.take(i as int));
    }
    assert(more@.take(i as int) =~= more@);
}

/// `len` bytes from `from` on.
pub fn part<'a>(bytes: &'a [u8], from: usize, len: usize) -> (out: &'a [u8])
    requires
        from + len <= bytes@.len(),
    ensures
        out@ == bytes@.subrange(from as int, from + len),
{
    let (head, rest): (&[u8], &[u8]) = bytes.split_at(from);
    let (middle, tail): (&[u8], &[u8]) = rest.split_at(len);
    assert(middle@ =~= bytes@.subrange(from as int, from + len));
    middle
}

/// The eight little-endian bytes of a number.
pub fn u64_bytes(x: u64) -> (bytes: Vec<u8>)
    ensures
        bytes@ == le_bytes(x as nat, 8),
{
    le_vec(x, 8)
}

/// The four little-endian bytes of a number.
pub fn u32_bytes(x: u32) -> (bytes: Vec<u8>)
    ensures
        bytes@ == le_bytes(x as nat, 4),
{
    le_vec(x as u64, 4)
}

fn le_vec(x: u64, n: usize) -> (bytes: Vec<u8>)
    ensures
        bytes@ == le_bytes(x as nat, n as nat),
{
    let mut out: Vec<u8> = Vec::new();
    let mut rest: u64 = x;
    let mut i: usize = 0;
    while i < n
        invariant
            i <= n,
            out@ + le_bytes(rest as nat, (n - i) as nat) == le_bytes(x as nat, n as nat),
        decreases n - i,
    {
        let ghost before = out@;
        out.push((rest % 256) as u8);
        proof {
            assert(before + le_bytes(rest as nat, (n - i) as nat) =~= out@ + le_bytes(
                (rest / 256) as nat,
                (n - i - 1) as nat,
            ));
        }
        rest = rest / 256;
        i += 1;
    }
    assert(out@ + le_bytes(rest as nat, 0) =~= out@);
    out
}

/// The number whose four little-endian bytes stand at `at`.
pub fn u32_at(bytes: &[u8], at: usize) -> (x: u32)
    requires
        at + 4 <= bytes@.len(),
    ensures
        x == le_at(bytes@, at as int, 4),
{
    proof {
        reveal_with_fuel(le_at, 5);
    }
    bytes[at] as u32 + 256 * (bytes[at + 1] as u32) + 65536 * (bytes[at + 2] as u32) + 16777216 * (
    bytes[at + 3] as u32)
}

/// The number whose eight little-endian bytes stand at `at`.
pub fn u64_at(bytes: &[u8], at: usize) -> (x: u64)
    requires
        at + 8 <= bytes@.len(),
    ensures
        x == le_at(bytes@, at as int, 8),
{
    proof {
        reveal_with_fuel(le_at, 9);
    }
    bytes[at] as u64 + 256 * (bytes[at + 1] as u64) + 65536 * (bytes[at + 2] as u64) + 16777216 * (
    bytes[at + 3] as u64) + 4294967296 * (bytes[at + 4] as u64) + 1099511627776 * (bytes[at
        + 5] as u64) + 281474976710656 * (bytes[at + 6] as u64) + 72057594037927936 * (bytes[at
        + 7] as u64)
}

/// The least byte comes first: each byte of a number is the one that its place says,
/// and a number is read back from its bytes in the same order.
pub proof fn law_the_least_byte_comes_first(x: nat, n: nat, i: int)
    requires
        0 <= i < n,
    ensures
        le_bytes(x, n).len() == n,
        le_bytes(x, n)[i] == (x / pow256(i as nat)) % 256,
    decreases n,
{
    le_bytes_len(x, n);
    if i > 0 {
        law_the_least_byte_comes_first(x / 256, (n - 1) as nat, i - 1);
        le_bytes_len(x / 256, (n - 1) as nat);
        assert(le_bytes(x, n)[i] == le_bytes(x / 256, (n - 1) as nat)[i - 1]);
        let p = pow256((i - 1) as nat);
        pow256_positive((i - 1) as nat);
        assert(pow256(i as nat) == 256 * p);
        vstd::arithmetic::div_mod::lemma_div_denominator(x as int, 256, p as int);
    } else {
        assert(x / 1 == x);
    }
}

proof fn pow256_positive(n: nat)
    ensures
        pow256(n) > 0,
    decreases n,
{
    if n > 0 {
        pow256_positive((n - 1) as nat);
    }
}

} // verus!
