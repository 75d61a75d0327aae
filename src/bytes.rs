//! Fixed-width little-endian integers, as they stand in the data file.
use vstd::prelude::*;

verus! {

/// `256` raised to the power `k`.
pub open spec fn pow256(k: nat) -> nat
    decreases k,
{
    if k == 0 {
        1
    } else {
        256 * pow256((k - 1) as nat)
    }
}

/// The number that a little-endian byte sequence denotes.
pub open spec fn le_value(s: Seq<u8>) -> nat
    decreases s.len(),
{
    if s.len() == 0 {
        0
    } else {
        s[0] as nat + 256 * le_value(s.drop_first())
    }
}

/// The `k` low bytes of `n`, least significant first.
pub open spec fn le_bytes(n: nat, k: nat) -> Seq<u8>
    decreases k,
{
    if k == 0 {
        Seq::empty()
    } else {
        seq![(n % 256) as u8] + le_bytes(n / 256, (k - 1) as nat)
    }
}

/// The eight bytes that hold `x` in the file.
pub open spec fn u64_le(x: u64) -> Seq<u8> {
    le_bytes(x as nat, 8)
}

pub proof fn lemma_le_bytes_len(n: nat, k: nat)
    ensures
        le_bytes(n, k).len() == k,
    decreases k,
{
    if k > 0 {
        lemma_le_bytes_len(n / 256, (k - 1) as nat);
    }
}

pub proof fn lemma_pow256_positive(k: nat)
    ensures
        pow256(k) >= 1,
    decreases k,
{
    if k > 0 {
        lemma_pow256_positive((k - 1) as nat);
    }
}

/// Reading back the bytes of a number that fits gives the number.
pub proof fn lemma_le_round_trip(n: nat, k: nat)
    requires
        n < pow256(k),
    ensures
        le_value(le_bytes(n, k)) == n,
    decreases k,
{
    if k > 0 {
        let m = n / 256;
        assert(m < pow256((k - 1) as nat)) by (nonlinear_arith)
            requires
                n < 256 * pow256((k - 1) as nat),
                m == n / 256,
        ;
        lemma_le_round_trip(m, (k - 1) as nat);
        let s = le_bytes(n, k);
        assert(s.drop_first() =~= le_bytes(m, (k - 1) as nat));
        assert(n == n % 256 + 256 * m) by (nonlinear_arith)
            requires
                m == n / 256,
        ;
    }
}

pub proof fn lemma_le_value_bound(s: Seq<u8>)
    ensures
        le_value(s) < pow256(s.len()),
    decreases s.len(),
{
    if s.len() > 0 {
        let t = s.drop_first();
        lemma_le_value_bound(t);
        let a = s[0] as nat;
        let b = le_value(t);
        let p = pow256(t.len());
        assert(a + 256 * b < 256 * p) by (nonlinear_arith)
            requires
                a < 256,
                b < p,
        ;
    }
}

/// Writing back the number that bytes denote gives the bytes.
pub proof fn lemma_le_bytes_of_value(s: Seq<u8>)
    ensures
        le_bytes(le_value(s), s.len()) == s,
    decreases s.len(),
{
    if s.len() > 0 {
        let t = s.drop_first();
        lemma_le_bytes_of_value(t);
        let a = s[0] as nat;
        let b = le_value(t);
        assert((a + 256 * b) % 256 == a && (a + 256 * b) / 256 == b) by (nonlinear_arith)
            requires
                a < 256,
        ;
        assert(le_bytes(le_value(s), s.len()) =~= s);
    }
}

pub proof fn lemma_pow256_8()
    ensures
        pow256(8) == 0x1_0000_0000_0000_0000,
{
    reveal_with_fuel(pow256, 9);
}

/// Two numbers below 2^64 with the same eight bytes are equal.
pub proof fn lemma_u64_le_injective(x: u64, y: u64)
    requires
        u64_le(x) == u64_le(y),
    ensures
        x == y,
{
    lemma_pow256_8();
    lemma_le_round_trip(x as nat, 8);
    lemma_le_round_trip(y as nat, 8);
}

/// A fresh copy of `s`.
pub fn copy_bytes(s: &[u8]) -> (r: Vec<u8>)
    ensures
        r@ == s@,
{
    let mut out: Vec<u8> = Vec::with_capacity(s.len());
    let mut i: usize = 0;
    while i < s.len()
        invariant
            i <= s@.len(),
            out@ == s@.subrange(0, i as int),
        decreases s@.len() - i,
    {
        out.push(s[i]);
        i = i + 1;
        proof {
            assert(out@ =~= s@.subrange(0, i as int));
        }
    }
    assert(s@.subrange(0, s@.len() as int) =~= s@);
    out
}

/// The eight little-endian bytes of `x`.
pub fn u64_to_le(x: u64) -> (r: Vec<u8>)
    ensures
        r@ == u64_le(x),
        r@.len() == 8,
{
    let mut out: Vec<u8> = Vec::new();
    let mut n: u64 = x;
    let mut i: usize = 0;
    while i < 8
        invariant
            i <= 8,
            le_bytes(x as nat, 8) == out@ + le_bytes(n as nat, (8 - i) as nat),
        decreases 8 - i,
    {
        proof {
            assert(le_bytes(n as nat, (8 - i) as nat) == seq![(n as nat % 256) as u8] + le_bytes(
                n as nat / 256,
                (8 - i - 1) as nat,
            ));
        }
        let ghost prev = out@;
        out.push((n % 256) as u8);
        n = n / 256;
        i = i + 1;
        proof {
            assert(prev + (seq![out@.last()] + le_bytes(n as nat, (8 - i) as nat)) =~= out@ + le_bytes(
                n as nat,
                (8 - i) as nat,
            ));
        }
    }
    proof {
        assert(out@ + le_bytes(n as nat, 0) =~= out@);
        lemma_le_bytes_len(x as nat, 8);
    }
    out
}

/// The number held by the eight bytes of `b` that start at `at`.
pub fn u64_from_le(b: &[u8], at: usize) -> (r: u64)
    requires
        at + 8 <= b@.len(),
    ensures
        r == le_value(b@.subrange(at as int, at + 8)),
{
    let len: usize = b.len();
    let mut acc: u64 = 0;
    let mut i: usize = 8;
    while i > 0
        invariant
            i <= 8,
            at + 8 <= b@.len(),
            b@.len() == len,
            acc as nat == le_value(b@.subrange(at + i, at + 8)),
        decreases i,
    {
        let ghost tail = b@.subrange(at + i, at + 8);
        let ghost s = b@.subrange(at + i - 1, at + 8);
        proof {
            assert(s.drop_first() =~= tail);
            lemma_le_value_bound(s);
            lemma_pow256_8();
            assert(pow256(s.len()) <= pow256(8)) by {
                lemma_pow256_mono(s.len(), 8);
            }
        }
        let idx: usize = at + (i - 1);
        let byte: u8 = b[idx];
        proof {
            assert(s[0] == byte);
            assert(le_value(s) == byte as nat + 256 * acc as nat);
        }
        acc = acc * 256 + byte as u64;
        i = i - 1;
    }
    acc
}

proof fn lemma_pow256_mono(a: nat, b: nat)
    requires
        a <= b,
    ensures
        pow256(a) <= pow256(b),
    decreases b,
{
    if a < b {
        lemma_pow256_mono(a, (b - 1) as nat);
        lemma_pow256_positive((b - 1) as nat);
    }
}

} // verus!
