//! Share targets: 256-bit little-endian numbers held in 32-byte arrays.

use vstd::prelude::*;

verus! {

/// `256^k`.
pub open spec fn p256(k: nat) -> nat
    decreases k,
{
    if k == 0 {
        1
    } else {
        256 * p256((k - 1) as nat)
    }
}

/// The number whose little-endian bytes are `s` (`s[0]` least significant).
pub open spec fn le_num(s: Seq<u8>) -> nat
    decreases s.len(),
{
    if s.len() == 0 {
        0
    } else {
        le_num(s.drop_last()) + p256((s.len() - 1) as nat) * (s.last() as nat)
    }
}

pub proof fn lemma_p256_pos(k: nat)
    ensures
        p256(k) >= 1,
    decreases k,
{
    if k > 0 {
        lemma_p256_pos((k - 1) as nat);
    }
}

pub proof fn lemma_p256_adds(a: nat, b: nat)
    ensures
        p256(a + b) == p256(a) * p256(b),
    decreases b,
{
    if b > 0 {
        lemma_p256_adds(a, (b - 1) as nat);
        let x = p256(a);
        let y = p256((b - 1) as nat);
        assert((a + b - 1) as nat == a + ((b - 1) as nat));
        assert(p256(a + b) == 256 * p256((a + b - 1) as nat));
        assert(p256(b) == 256 * y);
        assert(p256((a + b - 1) as nat) == x * y);
        assert(x * (256 * y) == 256 * (x * y)) by (nonlinear_arith);
    } else {
        assert(p256(0) == 1);
        assert(a + b == a);
        assert(p256(a) * 1 == p256(a)) by (nonlinear_arith);
    }
}

pub proof fn lemma_le_num_bound(s: Seq<u8>)
    ensures
        le_num(s) < p256(s.len()),
    decreases s.len(),
{
    if s.len() > 0 {
        let d = s.drop_last();
        lemma_le_num_bound(d);
        let p = p256(d.len());
        let l = s.last() as nat;
        let a = le_num(d);
        assert(a + p * l < 256 * p) by (nonlinear_arith)
            requires
                a < p,
                l <= 255,
        ;
    }
}

/// Splitting the bytes at `k` splits the number: low part plus `256^k` times the high part.
pub proof fn lemma_le_num_split(s: Seq<u8>, k: int)
    requires
        0 <= k <= s.len(),
    ensures
        le_num(s) == le_num(s.take(k)) + p256(k as nat) * le_num(s.skip(k)),
    decreases s.len(),
{
    if k == s.len() {
        assert(s.take(k) =~= s);
        assert(s.skip(k).len() == 0);
        assert(le_num(s.skip(k)) == 0);
        assert(p256(k as nat) * 0 == 0) by (nonlinear_arith);
    } else {
        let d = s.drop_last();
        lemma_le_num_split(d, k);
        assert(d.take(k) =~= s.take(k));
        assert(s.skip(k).drop_last() =~= d.skip(k));
        assert(s.skip(k).last() == s.last());
        let n1 = (s.len() - 1) as nat;
        let j = (s.skip(k).len() - 1) as nat;
        lemma_p256_adds(k as nat, j);
        assert(k + j == n1);
        let pk = p256(k as nat);
        let pj = p256(j);
        let l = s.last() as nat;
        let hi = le_num(d.skip(k));
        assert(le_num(s.skip(k)) == hi + pj * l);
        assert(le_num(s) == le_num(d) + p256(n1) * l);
        assert(le_num(d) == le_num(s.take(k)) + pk * hi);
        assert(p256(n1) == pk * pj);
        assert(pk * (hi + pj * l) == pk * hi + (pk * pj) * l) by (nonlinear_arith);
    }
}

/// Whether the hash, read as a little-endian 256-bit number, is at most the target.
pub open spec fn meets_target(hash: Seq<u8>, target: Seq<u8>) -> bool {
    le_num(hash) <= le_num(target)
}

proof fn lemma_top_byte_decides(a: Seq<u8>, b: Seq<u8>, i: int)
    requires
        a.len() == b.len(),
        0 <= i < a.len(),
        a.skip(i + 1) == b.skip(i + 1),
        a[i] != b[i],
    ensures
        (le_num(a) <= le_num(b)) == (a[i] < b[i]),
{
    lemma_le_num_split(a, i + 1);
    lemma_le_num_split(b, i + 1);
    let ta = a.take(i + 1);
    let tb = b.take(i + 1);
    assert(ta.drop_last() =~= a.take(i));
    assert(tb.drop_last() =~= b.take(i));
    lemma_le_num_bound(a.take(i));
    lemma_le_num_bound(b.take(i));
    let p = p256(i as nat);
    let la = le_num(a.take(i));
    let lb = le_num(b.take(i));
    let x = a[i] as nat;
    let y = b[i] as nat;
    assert(le_num(ta) == la + p * x);
    assert(le_num(tb) == lb + p * y);
    if x < y {
        assert(la + p * x < lb + p * y) by (nonlinear_arith)
            requires
                la < p,
                x + 1 <= y,
        ;
    } else {
        assert(lb + p * y < la + p * x) by (nonlinear_arith)
            requires
                lb < p,
                y + 1 <= x,
        ;
    }
}

/// Compares a hash against a share target, most significant byte first.
pub fn hash_meets_target(hash: &[u8; 32], target: &[u8; 32]) -> (r: bool)
    ensures
        r == meets_target(hash@, target@),
{
    let mut i: usize = 32;
    assert(hash@.skip(32) =~= target@.skip(32));
    while i > 0
        invariant
            i <= 32,
            hash@.len() == 32,
            target@.len() == 32,
            hash@.skip(i as int) == target@.skip(i as int),
        decreases i,
    {
        i = i - 1;
        if hash[i] < target[i] {
            proof {
                lemma_top_byte_decides(hash@, target@, i as int);
            }
            return true;
        }
        if hash[i] > target[i] {
            proof {
                lemma_top_byte_decides(hash@, target@, i as int);
            }
            return false;
        }
        assert(hash@.skip(i as int) =~= seq![hash@[i as int]] + hash@.skip(i + 1));
        assert(target@.skip(i as int) =~= seq![target@[i as int]] + target@.skip(i + 1));
    }
    assert(hash@ =~= hash@.skip(0));
    assert(target@ =~= target@.skip(0));
    true
}

} // verus!
