use vstd::prelude::*;
use vstd::arithmetic::div_mod::lemma_fundamental_div_mod;
use vstd::arithmetic::div_mod::lemma_mod_pos_bound;
use vstd::arithmetic::div_mod::lemma_add_mod_noop;
use vstd::arithmetic::div_mod::lemma_small_mod;

verus! {

/// One more than `u64::MAX`: the modulus of the token's integrity trailer and
/// the bound that every length field of the token format must stay under.
pub open spec fn u64_bound() -> int {
    0x1_0000_0000_0000_0000
}

/// Sum of all bytes of a sequence, as an unbounded integer.
pub open spec fn byte_sum(s: Seq<u8>) -> int
    decreases s.len(),
{
    if s.len() == 0 {
        0
    } else {
        byte_sum(s.drop_last()) + s.last()
    }
}

/// The integrity checksum of a payload: its byte sum reduced modulo 2^64.
pub open spec fn checksum(s: Seq<u8>) -> u64 {
    (byte_sum(s) % u64_bound()) as u64
}

pub proof fn lemma_byte_sum_nonneg(s: Seq<u8>)
    ensures
        byte_sum(s) >= 0,
    decreases s.len(),
{
    if s.len() != 0 {
        lemma_byte_sum_nonneg(s.drop_last());
    }
}

/// Replacing one byte moves the byte sum by exactly the difference of the
/// old and new byte.
pub proof fn lemma_byte_sum_update(s: Seq<u8>, i: int, b: u8)
    requires
        0 <= i < s.len(),
    ensures
        byte_sum(s.update(i, b)) == byte_sum(s) - s[i] + b,
    decreases s.len(),
{
    let t = s.update(i, b);
    if i == s.len() - 1 {
        assert(t.drop_last() =~= s.drop_last());
    } else {
        assert(t.drop_last() =~= s.drop_last().update(i, b));
        assert(t.last() == s.last());
        lemma_byte_sum_update(s.drop_last(), i, b);
    }
}

/// Two distinct non-negative integers less than 2^64 apart have distinct
/// remainders modulo 2^64.
pub proof fn lemma_mod_u64_distinct(x: int, y: int)
    requires
        0 <= x,
        0 <= y,
        x != y,
        -u64_bound() < x - y < u64_bound(),
    ensures
        x % u64_bound() != y % u64_bound(),
{
    let m = u64_bound();
    lemma_fundamental_div_mod(x, m);
    lemma_fundamental_div_mod(y, m);
    lemma_mod_pos_bound(x, m);
    lemma_mod_pos_bound(y, m);
    if x % m == y % m {
        let a = x / m;
        let b = y / m;
        let k = a - b;
        assert(x - y == m * a - m * b);
        assert(m * a - m * b == m * k) by (nonlinear_arith)
            requires
                k == a - b,
        ;
        if k >= 1 {
            assert(m * k >= m) by (nonlinear_arith)
                requires
                    k >= 1,
                    m == u64_bound(),
            ;
        } else if k <= -1 {
            assert(m * k <= -m) by (nonlinear_arith)
                requires
                    k <= -1,
                    m == u64_bound(),
            ;
        }
        assert(false);
    }
}

/// Computes the integrity checksum of a byte vector.
pub fn compute_checksum(p: &Vec<u8>) -> (r: u64)
    ensures
        r == checksum(p@),
{
    let mut acc: u64 = 0;
    let mut i: usize = 0;
    proof {
        assert(p@.take(0) =~= Seq::<u8>::empty());
    }
    while i < p.len()
        invariant
            i <= p.len(),
            acc == checksum(p@.take(i as int)),
        decreases p.len() - i,
    {
        let b = p[i];
        proof {
            let m = u64_bound();
            let pre = p@.take(i as int);
            let post = p@.take(i + 1);
            assert(post.drop_last() =~= pre);
            assert(post.last() == b);
            lemma_byte_sum_nonneg(pre);
            lemma_mod_pos_bound(byte_sum(pre), m);
            lemma_add_mod_noop(byte_sum(pre), b as int, m);
            lemma_small_mod(b as nat, m as nat);
            lemma_mod_pos_bound(byte_sum(pre) % m + b, m);
            if acc + b <= u64::MAX {
                lemma_small_mod((acc + b) as nat, m as nat);
            } else {
                lemma_fundamental_div_mod(acc + b, m);
                assert((acc + b) % m == acc + b - m) by {
                    let q = (acc + b) / m;
                    lemma_mod_pos_bound(acc + b, m);
                    assert(acc + b == q * m + (acc + b) % m);
                    if q <= 0 {
                        assert(q * m <= 0) by (nonlinear_arith)
                            requires
                                q <= 0,
                                m == u64_bound(),
                        ;
                    }
                    if q >= 2 {
                        assert(q * m >= 2 * m) by (nonlinear_arith)
                            requires
                                q >= 2,
                                m == u64_bound(),
                        ;
                    }
                    assert(q == 1);
                }
            }
        }
        acc = acc.wrapping_add(b as u64);
        i = i + 1;
    }
    proof {
        assert(p@.take(p@.len() as int) =~= p@);
    }
    acc
}

} // verus!
