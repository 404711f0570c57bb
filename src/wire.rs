//! Byte-level building blocks of the record layout: fixed-width
//! little-endian integers and length-prefixed byte runs.
use vstd::prelude::*;

verus! {

/// `256` raised to `k`: one more than the largest value of `k` bytes.
pub open spec fn pow256(k: nat) -> nat
    decreases k,
{
    if k == 0 {
        1
    } else {
        256 * pow256((k - 1) as nat)
    }
}

/// The `w` low bytes of `n`, least significant first.
pub open spec fn le_bytes(n: nat, w: nat) -> Seq<u8>
    decreases w,
{
    if w == 0 {
        seq![]
    } else {
        seq![(n % 256) as u8] + le_bytes(n / 256, (w - 1) as nat)
    }
}

/// The number that bytes spell, least significant first.
pub open spec fn le_value(b: Seq<u8>) -> nat
    decreases b.len(),
{
    if b.len() == 0 {
        0
    } else {
        b[0] as nat + 256 * le_value(b.drop_first())
    }
}

/// Writing `w` bytes gives `w` bytes.
pub proof fn lemma_le_bytes_len(n: nat, w: nat)
    ensures
        le_bytes(n, w).len() == w,
    decreases w,
{
    if w > 0 {
        lemma_le_bytes_len(n / 256, (w - 1) as nat);
    }
}

/// What `k` bytes spell is below `256` to the `k`.
pub proof fn lemma_le_value_bound(b: Seq<u8>)
    ensures
        le_value(b) < pow256(b.len()),
    decreases b.len(),
{
    if b.len() > 0 {
        lemma_le_value_bound(b.drop_first());
        let r = le_value(b.drop_first());
        let p = pow256((b.len() - 1) as nat);
        let x = b[0] as nat;
        assert(x + 256 * r < 256 * p) by (nonlinear_arith)
            requires
                x < 256,
                r < p,
        ;
    }
}

/// Reading back `w` written bytes gives the number, when it fits in them.
pub proof fn lemma_le_round_trip(n: nat, w: nat)
    requires
        n < pow256(w),
    ensures
        le_value(le_bytes(n, w)) == n,
    decreases w,
{
    if w > 0 {
        let p = pow256((w - 1) as nat);
        assert(n / 256 < p) by (nonlinear_arith)
            requires
                n < 256 * p,
        ;
        lemma_le_round_trip(n / 256, (w - 1) as nat);
        let b = le_bytes(n, w);
        assert(b.drop_first() =~= le_bytes(n / 256, (w - 1) as nat));
        assert(n == n % 256 + 256 * (n / 256)) by (nonlinear_arith);
    } else {
        assert(n == 0);
    }
}

/// Sixteen bytes span exactly the range of `u128`.
pub proof fn lemma_pow256_16()
    ensures
        pow256(16) == 0x1_0000_0000_0000_0000_0000_0000_0000_0000,
{
    reveal_with_fuel(pow256, 17);
}

/// More bytes span at least as large a range.
pub proof fn lemma_pow256_monotone(a: nat, b: nat)
    requires
        a <= b,
    ensures
        pow256(a) <= pow256(b),
    decreases b,
{
    if a < b {
        lemma_pow256_monotone(a, (b - 1) as nat);
    }
}

/// Appends the `w` low bytes of `n`, least significant first.
pub fn push_le(out: &mut Vec<u8>, n: u128, w: usize)
    ensures
        final(out)@ == old(out)@ + le_bytes(n as nat, w as nat),
{
    let ghost start = out@;
    let mut x: u128 = n;
    let mut k: usize = 0;
    while k < w
        invariant
            k <= w,
            out@ + le_bytes(x as nat, (w - k) as nat) == start + le_bytes(n as nat, w as nat),
        decreases w - k,
    {
        let ghost before = out@;
        out.push((x % 256) as u8);
        assert(le_bytes(x as nat, (w - k) as nat) == seq![(x % 256) as u8] + le_bytes(
            (x / 256) as nat,
            (w - k - 1) as nat,
        ));
        assert(out@ + le_bytes((x / 256) as nat, (w - k - 1) as nat) =~= before + le_bytes(
            x as nat,
            (w - k) as nat,
        ));
        x = x / 256;
        k = k + 1;
    }
    assert(out@ =~= out@ + le_bytes(x as nat, 0));
}

/// Reads `w` bytes at `pos` as a little-endian number.
pub fn read_le(b: &[u8], pos: usize, w: usize) -> (r: u128)
    requires
        w <= 16,
        pos + w <= b@.len(),
    ensures
        r as nat == le_value(b@.subrange(pos as int, pos + w)),
{
    let n = b.len();
    let mut acc: u128 = 0;
    let mut k: usize = w;
    proof {
        lemma_pow256_16();
        lemma_pow256_monotone(w as nat, 16);
    }
    while k > 0
        invariant
            k <= w <= 16,
            pos + w <= b@.len(),
            n == b@.len(),
            pow256(w as nat) <= pow256(16),
            pow256(16) == 0x1_0000_0000_0000_0000_0000_0000_0000_0000,
            acc as nat == le_value(b@.subrange(pos + k, pos + w)),
        decreases k,
    {
        let ghost rest = b@.subrange(pos + k, pos + w);
        let ghost cur = b@.subrange(pos + k - 1, pos + w);
        assert(cur.drop_first() =~= rest);
        proof {
            lemma_le_value_bound(cur);
            lemma_pow256_monotone(cur.len(), w as nat);
            assert(cur[0] == b@[pos + k - 1]);
            assert(le_value(cur) == acc as nat * 256 + b@[pos + k - 1] as nat);
            assert(cur.len() == w - k + 1);
            assert(le_value(cur) < 0x1_0000_0000_0000_0000_0000_0000_0000_0000);
        }
        let byte = b[pos + (k - 1)];
        acc = acc * 256 + byte as u128;
        k = k - 1;
    }
    acc
}

} // verus!
