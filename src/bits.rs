//! Binary digits of natural numbers, read most-significant first.
use vstd::prelude::*;

verus! {

/// `2^n`.
pub open spec fn two_pow(n: nat) -> nat
    decreases n,
{
    if n == 0 {
        1
    } else {
        2 * two_pow((n - 1) as nat)
    }
}

/// Bit `k` of `x`, counted from the least significant bit.
pub open spec fn bit(x: nat, k: nat) -> bool
    decreases k,
{
    if k == 0 {
        x % 2 == 1
    } else {
        bit(x / 2, (k - 1) as nat)
    }
}

/// The number whose binary digits, most significant first, are `s`.
pub open spec fn bits_value(s: Seq<bool>) -> nat
    decreases s.len(),
{
    if s.len() == 0 {
        0
    } else {
        2 * bits_value(s.drop_last()) + if s.last() {
            1nat
        } else {
            0nat
        }
    }
}

/// The `n` low bits of `x`, most significant first.
pub open spec fn digits(x: nat, n: nat) -> Seq<bool> {
    Seq::new(n, |r: int| bit(x, (n - 1 - r) as nat))
}

pub proof fn lemma_two_pow_positive(n: nat)
    ensures
        two_pow(n) >= 1,
    decreases n,
{
    if n > 0 {
        lemma_two_pow_positive((n - 1) as nat);
    }
}

pub proof fn lemma_two_pow_monotone(a: nat, b: nat)
    requires
        a <= b,
    ensures
        two_pow(a) <= two_pow(b),
    decreases b,
{
    if a < b {
        lemma_two_pow_monotone(a, (b - 1) as nat);
    }
}

/// A value built from `n` digits is below `2^n`, and its bits are those digits.
pub proof fn lemma_bits_value(s: Seq<bool>)
    ensures
        bits_value(s) < two_pow(s.len()),
        forall|r: int| 0 <= r < s.len() ==> #[trigger] bit(bits_value(s), (s.len() - 1 - r) as nat) == s[r],
    decreases s.len(),
{
    if s.len() > 0 {
        let p = s.drop_last();
        lemma_bits_value(p);
        let v = bits_value(s);
        let b: nat = if s.last() { 1 } else { 0 };
        assert(v == 2 * bits_value(p) + b);
        assert(v / 2 == bits_value(p));
        assert forall|r: int| 0 <= r < s.len() implies #[trigger] bit(v, (s.len() - 1 - r) as nat) == s[r] by {
            if r == s.len() - 1 {
                assert(bit(v, 0) == (v % 2 == 1));
                assert(v % 2 == b);
            } else {
                let k = (s.len() - 1 - r) as nat;
                assert(bit(v, k) == bit(v / 2, (k - 1) as nat));
                assert(p[r] == s[r]);
                assert(bit(bits_value(p), (p.len() - 1 - r) as nat) == p[r]);
                assert((p.len() - 1 - r) as nat == (k - 1) as nat);
            }
        }
    }
}

/// Two numbers below `2^n` with the same `n` low bits are equal.
pub proof fn lemma_bits_determine(x: nat, y: nat, n: nat)
    requires
        x < two_pow(n),
        y < two_pow(n),
        forall|k: nat| k < n ==> #[trigger] bit(x, k) == bit(y, k),
    ensures
        x == y,
    decreases n,
{
    if n == 0 {
    } else {
        assert(bit(x, 0) == bit(y, 0));
        assert forall|k: nat| k < n - 1 implies #[trigger] bit(x / 2, k) == bit(y / 2, k) by {
            assert(bit(x, k + 1) == bit(y, k + 1));
        }
        lemma_bits_determine(x / 2, y / 2, (n - 1) as nat);
    }
}

/// A number below `2^n` is the value of its `n` low digits.
pub proof fn lemma_digits_value(x: nat, n: nat)
    requires
        x < two_pow(n),
    ensures
        bits_value(digits(x, n)) == x,
{
    let s = digits(x, n);
    lemma_bits_value(s);
    assert forall|k: nat| k < n implies #[trigger] bit(bits_value(s), k) == bit(x, k) by {
        let r = n - 1 - k;
        assert(bit(bits_value(s), (s.len() - 1 - r) as nat) == s[r]);
    }
    lemma_bits_determine(bits_value(s), x, n);
}

/// Equal-length digit strings with different values differ.
pub proof fn lemma_bits_value_injective(s: Seq<bool>, t: Seq<bool>)
    requires
        s.len() == t.len(),
        bits_value(s) == bits_value(t),
    ensures
        s == t,
{
    lemma_bits_value(s);
    lemma_bits_value(t);
    assert forall|r: int| 0 <= r < s.len() implies s[r] == t[r] by {
        assert(bit(bits_value(s), (s.len() - 1 - r) as nat) == s[r]);
        assert(bit(bits_value(t), (t.len() - 1 - r) as nat) == t[r]);
    }
    assert(s =~= t);
}

/// Where two equal-length digit strings first differ, the one with a one there
/// has the larger value: the digit order is the numeric order.
pub proof fn lemma_bits_value_lex(s: Seq<bool>, t: Seq<bool>)
    requires
        s.len() == t.len(),
        forall|j: int|
            0 <= j < s.len() && s[j] != t[j] && (forall|k: int| 0 <= k < j ==> s[k] == t[k])
                ==> #[trigger] s[j],
    ensures
        bits_value(s) >= bits_value(t),
    decreases s.len(),
{
    if s.len() > 0 {
        let sp = s.drop_last();
        let tp = t.drop_last();
        let n = s.len() - 1;
        if sp == tp {
            if s[n] != t[n] {
                assert forall|k: int| 0 <= k < n implies s[k] == t[k] by {
                    assert(sp[k] == tp[k]);
                }
                assert(s[n]);
            }
        } else {
            assert forall|j: int|
                0 <= j < sp.len() && sp[j] != tp[j] && (forall|k: int| 0 <= k < j ==> sp[k] == tp[k])
                    implies #[trigger] sp[j] by {
                assert forall|k: int| 0 <= k < j implies s[k] == t[k] by {
                    assert(sp[k] == tp[k]);
                }
                assert(s[j]);
            }
            lemma_bits_value_lex(sp, tp);
            if bits_value(sp) == bits_value(tp) {
                lemma_bits_value_injective(sp, tp);
            }
        }
    }
}

/// Exec helper: bit `k` of a 64-bit word.
pub fn word_bit(x: u64, k: u32) -> (r: bool)
    requires
        k < 64,
    ensures
        r == bit(x as nat, k as nat),
{
    let mut y: u64 = x;
    let mut t: u32 = 0;
    while t < k
        invariant
            t <= k,
            forall|u: nat| #[trigger] bit(y as nat, u) == bit(x as nat, (u + t) as nat),
        decreases k - t,
    {
        assert forall|u: nat| #[trigger] bit((y / 2) as nat, u) == bit(x as nat, (u + t + 1) as nat) by {
            assert(bit(y as nat, u + 1) == bit((y as nat) / 2, u));
        }
        y = y / 2;
        t = t + 1;
    }
    assert(bit(y as nat, 0) == bit(x as nat, k as nat));
    y % 2 == 1
}

} // verus!
