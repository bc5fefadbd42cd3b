//! Z-order (Morton) codec: a coordinate of up to four 16-bit axes becomes one
//! 64-bit key by interleaving the axes' bits, most significant round first.
use vstd::prelude::*;
use crate::bits::{
    bit, bits_value, digits, lemma_bits_determine, lemma_bits_value, lemma_bits_value_injective,
    lemma_bits_value_lex, lemma_digits_value, lemma_two_pow_monotone, two_pow, word_bit,
};

verus! {

/// Bits per axis.
pub const AXIS_BITS: usize = 16;

/// Most axes whose interleaved bits fit in a 64-bit key.
pub const MAX_AXES: usize = 4;

/// The interleaved bit string of `c`: position `j` holds, for axis `j % d`, the
/// bit of round `j / d`, rounds counted from the most significant bit.
pub open spec fn interleave(c: Seq<u16>) -> Seq<bool> {
    Seq::new(
        16 * c.len(),
        |j: int| bit(c[j % (c.len() as int)] as nat, (15 - j / (c.len() as int)) as nat),
    )
}

/// The Morton key of `c`.
pub open spec fn morton(c: Seq<u16>) -> nat {
    bits_value(interleave(c))
}

/// A coordinate the codec can carry: one to four axes.
pub open spec fn codec_dims(d: nat) -> bool {
    1 <= d <= 4
}

pub proof fn lemma_two_pow_64()
    ensures
        two_pow(64) == 0x1_0000_0000_0000_0000nat,
{
    reveal_with_fuel(two_pow, 65);
}

proof fn lemma_split_index(j: int, d: int)
    requires
        1 <= d <= 4,
        0 <= j < 16 * d,
    ensures
        0 <= j / d < 16,
        0 <= j % d < d,
        j == (j / d) * d + j % d,
{
    vstd::arithmetic::div_mod::lemma_fundamental_div_mod(j, d);
    assert(0 <= j / d < 16) by (nonlinear_arith)
        requires
            1 <= d <= 4,
            0 <= j < 16 * d,
            j == d * (j / d) + j % d,
            0 <= j % d < d,
    ;
    assert(j == (j / d) * d + j % d) by (nonlinear_arith)
        requires
            j == d * (j / d) + j % d,
    ;
}

proof fn lemma_join_index(r: int, i: int, d: int)
    requires
        1 <= d <= 4,
        0 <= r < 16,
        0 <= i < d,
    ensures
        0 <= r * d + i < 16 * d,
        (r * d + i) / d == r,
        (r * d + i) % d == i,
{
    assert(0 <= r * d + i < 16 * d) by (nonlinear_arith)
        requires
            1 <= d <= 4,
            0 <= r < 16,
            0 <= i < d,
    ;
    vstd::arithmetic::div_mod::lemma_fundamental_div_mod_converse(r * d + i, d, r, i);
}

/// The key has 16 bits per axis, so it is below `2^(16 d)`.
pub proof fn lemma_morton_bound(c: Seq<u16>)
    ensures
        morton(c) < two_pow((16 * c.len()) as nat),
{
    lemma_bits_value(interleave(c));
}

/// The codec is injective on coordinates of one dimensionality, so decoding an
/// encoded coordinate gives it back.
pub proof fn lemma_morton_injective(a: Seq<u16>, b: Seq<u16>)
    requires
        codec_dims(a.len()),
        a.len() == b.len(),
        morton(a) == morton(b),
    ensures
        a == b,
{
    let d = a.len() as int;
    lemma_bits_value_injective(interleave(a), interleave(b));
    assert forall|i: int| 0 <= i < d implies a[i] == b[i] by {
        assert forall|k: nat| k < 16 implies #[trigger] bit(a[i] as nat, k) == bit(b[i] as nat, k) by {
            let r = 15 - k;
            lemma_join_index(r, i, d);
            assert(interleave(a)[r * d + i] == interleave(b)[r * d + i]);
        }
        assert(two_pow(16) == 65536) by {
            reveal_with_fuel(two_pow, 17);
        }
        lemma_bits_determine(a[i] as nat, b[i] as nat, 16);
    }
    assert(a =~= b);
}

/// Raising any axis never lowers the key: a coordinate that lies between two
/// corners, axis by axis, has a key between theirs.
pub proof fn lemma_morton_monotone(a: Seq<u16>, b: Seq<u16>)
    requires
        codec_dims(a.len()),
        a.len() == b.len(),
        forall|i: int| 0 <= i < a.len() ==> a[i] <= b[i],
    ensures
        morton(a) <= morton(b),
{
    let d = a.len() as int;
    let s = interleave(b);
    let t = interleave(a);
    assert(two_pow(16) == 65536) by {
        reveal_with_fuel(two_pow, 17);
    }
    assert forall|j: int|
        0 <= j < s.len() && s[j] != t[j] && (forall|k: int| 0 <= k < j ==> s[k] == t[k])
            implies #[trigger] s[j] by {
        lemma_split_index(j, d);
        let i = j % d;
        let r = j / d;
        let da = digits(a[i] as nat, 16);
        let db = digits(b[i] as nat, 16);
        assert forall|q: int| 0 <= q < r implies db[q] == da[q] by {
            lemma_join_index(q, i, d);
            assert(q * d + i < j) by (nonlinear_arith)
                requires
                    0 <= q < r,
                    j == r * d + i,
                    1 <= d,
            ;
            assert(s[q * d + i] == t[q * d + i]);
        }
        assert(db[r] == s[j]);
        assert(da[r] == t[j]);
        if !s[j] {
            assert forall|x: int|
                0 <= x < da.len() && da[x] != db[x] && (forall|k: int| 0 <= k < x ==> da[k] == db[k])
                    implies #[trigger] da[x] by {
                if x < r {
                } else if x > r {
                    assert(da[r] == db[r]);
                }
            }
            lemma_bits_value_lex(da, db);
            lemma_digits_value(a[i] as nat, 16);
            lemma_digits_value(b[i] as nat, 16);
            lemma_bits_value_injective(da, db);
            assert(false);
        }
    }
    lemma_bits_value_lex(s, t);
}

/// Encodes a coordinate into its Morton key.
pub fn encode(coords: &Vec<u16>) -> (key: u64)
    requires
        codec_dims(coords@.len()),
    ensures
        key == morton(coords@),
{
    let d = coords.len();
    let n = AXIS_BITS * d;
    let ghost s = interleave(coords@);
    let mut key: u64 = 0;
    let mut j: usize = 0;
    proof {
        lemma_two_pow_64();
        assert(s.take(0) =~= Seq::<bool>::empty());
    }
    while j < n
        invariant
            d == coords@.len(),
            codec_dims(d as nat),
            n == 16 * d,
            s == interleave(coords@),
            j <= n,
            key == bits_value(s.take(j as int)),
            two_pow(64) == 0x1_0000_0000_0000_0000nat,
        decreases n - j,
    {
        proof {
            lemma_split_index(j as int, d as int);
            lemma_bits_value(s.take(j as int));
            lemma_two_pow_monotone((j + 1) as nat, 64);
            assert(s.take(j as int + 1).drop_last() =~= s.take(j as int));
        }
        let i = j % d;
        let r = j / d;
        let b = word_bit(coords[i] as u64, (15 - r) as u32);
        key = 2 * key + if b {
            1
        } else {
            0
        };
        j = j + 1;
    }
    assert(s.take(n as int) =~= s);
    key
}

/// Decodes a key into the coordinate of `dims` axes that it encodes.
pub fn decode(key: u64, dims: usize) -> (coords: Vec<u16>)
    requires
        codec_dims(dims as nat),
        key < two_pow((16 * dims) as nat),
    ensures
        coords@.len() == dims,
        morton(coords@) == key,
        forall|c: Seq<u16>| c.len() == dims && morton(c) == key ==> coords@ == c,
{
    let d = dims;
    let ghost kd = (16 * d) as int;
    let mut coords: Vec<u16> = Vec::new();
    let mut i: usize = 0;
    proof {
        assert(two_pow(16) == 65536) by {
            reveal_with_fuel(two_pow, 17);
        }
    }
    while i < d
        invariant
            codec_dims(d as nat),
            kd == 16 * d,
            i <= d,
            coords@.len() == i,
            two_pow(16) == 65536,
            forall|q: int, r: int|
                0 <= q < i && 0 <= r < 16 ==> #[trigger] bit(coords@[q] as nat, (15 - r) as nat)
                    == bit(key as nat, (kd - 1 - (r * d + q)) as nat),
        decreases d - i,
    {
        let ghost si = Seq::new(16, |r: int| bit(key as nat, (kd - 1 - (r * d + i)) as nat));
        let mut acc: u64 = 0;
        let mut r: usize = 0;
        proof {
            assert(si.take(0) =~= Seq::<bool>::empty());
        }
        while r < AXIS_BITS
            invariant
                codec_dims(d as nat),
                kd == 16 * d,
                i < d,
                r <= 16,
                si == Seq::new(16, |r: int| bit(key as nat, (kd - 1 - (r * d + i)) as nat)),
                acc == bits_value(si.take(r as int)),
                two_pow(16) == 65536,
            decreases 16 - r,
        {
            proof {
                lemma_join_index(r as int, i as int, d as int);
                lemma_bits_value(si.take(r as int));
                lemma_two_pow_monotone(r as nat, 16);
                assert(si.take(r as int + 1).drop_last() =~= si.take(r as int));
            }
            let b = word_bit(key, (AXIS_BITS * d - 1 - (r * d + i)) as u32);
            acc = 2 * acc + if b {
                1
            } else {
                0
            };
            r = r + 1;
        }
        proof {
            assert(si.take(16) =~= si);
            lemma_bits_value(si);
        }
        coords.push(acc as u16);
        proof {
            assert forall|q: int, r: int|
                0 <= q < i + 1 && 0 <= r < 16 implies #[trigger] bit(coords@[q] as nat, (15 - r) as nat)
                    == bit(key as nat, (kd - 1 - (r * d + q)) as nat) by {
                if q == i {
                    assert(bit(bits_value(si), (si.len() - 1 - r) as nat) == si[r]);
                }
            }
        }
        i = i + 1;
    }
    proof {
        let c = coords@;
        let s = interleave(c);
        lemma_bits_value(s);
        assert forall|k: nat| k < kd implies #[trigger] bit(morton(c), k) == bit(key as nat, k) by {
            let j = kd - 1 - k;
            lemma_split_index(j, d as int);
            assert(bit(bits_value(s), (s.len() - 1 - j) as nat) == s[j]);
            assert(bit(c[j % (d as int)] as nat, (15 - j / (d as int)) as nat) == bit(
                key as nat,
                (kd - 1 - ((j / (d as int)) * d + j % (d as int))) as nat,
            ));
        }
        lemma_bits_determine(morton(c), key as nat, kd as nat);
        assert forall|c2: Seq<u16>| c2.len() == dims && morton(c2) == key implies c == c2 by {
            lemma_morton_injective(c, c2);
        }
    }
    coords
}

} // verus!
