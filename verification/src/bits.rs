//! Arithmetic groundwork: bit lengths and the value of a byte sequence
//! read as a big-endian unsigned integer.

use vstd::prelude::*;

verus! {

use vstd::arithmetic::power2::{
    pow2, lemma_pow2_adds, lemma_pow2_pos, lemma_pow2_strictly_increases, lemma2_to64,
};
use vstd::arithmetic::mul::{lemma_mul_inequality, lemma_mul_is_associative};

/// Number of binary digits needed to write `n`; zero for `n == 0`.
pub open spec fn bit_len(n: nat) -> nat
    decreases n,
{
    if n == 0 {
        0
    } else {
        1 + bit_len(n / 2)
    }
}

/// The value of a byte sequence read as a big-endian unsigned integer.
pub open spec fn be_value(s: Seq<u8>) -> nat
    decreases s.len(),
{
    if s.len() == 0 {
        0
    } else {
        (s[0] as nat) * pow2((8 * (s.len() - 1)) as nat) + be_value(s.skip(1))
    }
}

/// A byte sequence with no redundant leading zero octet: the shortest
/// big-endian form of its value (zero itself is written as one zero octet).
pub open spec fn normalized(s: Seq<u8>) -> bool {
    &&& s.len() >= 1
    &&& (s.len() > 1 ==> s[0] != 0)
}

pub proof fn lemma_bit_len_bounds(n: nat)
    requires
        n > 0,
    ensures
        bit_len(n) >= 1,
        pow2((bit_len(n) - 1) as nat) <= n < pow2(bit_len(n)),
    decreases n,
{
    if n / 2 == 0 {
        assert(n == 1);
        assert(bit_len(0) == 0);
        assert(bit_len(1) == 1);
        lemma2_to64();
    } else {
        lemma_bit_len_bounds(n / 2);
        let b = bit_len(n / 2);
        lemma_pow2_adds((b - 1) as nat, 1);
        lemma_pow2_adds(b, 1);
        lemma2_to64();
        assert(pow2(b) == 2 * pow2((b - 1) as nat));
        assert(pow2(b + 1) == 2 * pow2(b));
        assert(n >= 2 * (n / 2));
        assert(n < 2 * (n / 2) + 2);
    }
}

pub proof fn lemma_bit_len_le(n: nat, k: nat)
    requires
        n < pow2(k),
    ensures
        bit_len(n) <= k,
{
    if n > 0 {
        lemma_bit_len_bounds(n);
        if bit_len(n) > k {
            lemma_pow2_strictly_increases(k, bit_len(n));
            if k < bit_len(n) - 1 {
                lemma_pow2_strictly_increases(k, (bit_len(n) - 1) as nat);
            }
            assert(pow2(k) <= pow2((bit_len(n) - 1) as nat));
            assert(false);
        }
    }
}

pub proof fn lemma_bit_len_unique(n: nat, k: nat)
    requires
        k >= 1,
        pow2((k - 1) as nat) <= n < pow2(k),
    ensures
        bit_len(n) == k,
{
    lemma_pow2_pos((k - 1) as nat);
    lemma_bit_len_bounds(n);
    let b = bit_len(n);
    if b < k {
        if b < k - 1 {
            lemma_pow2_strictly_increases(b, (k - 1) as nat);
        }
        assert(pow2(b) <= pow2((k - 1) as nat));
        assert(false);
    }
    if b > k {
        if k < b - 1 {
            lemma_pow2_strictly_increases(k, (b - 1) as nat);
        }
        assert(pow2(k) <= pow2((b - 1) as nat));
        assert(false);
    }
}

/// Appending one octet multiplies the value by 256 and adds the octet.
pub proof fn lemma_be_value_snoc(s: Seq<u8>, b: u8)
    ensures
        be_value(s.push(b)) == 256 * be_value(s) + b,
    decreases s.len(),
{
    if s.len() == 0 {
        assert(s.push(b).skip(1) =~= Seq::<u8>::empty());
        assert(s =~= Seq::<u8>::empty());
        lemma2_to64();
        assert(be_value(Seq::<u8>::empty()) == 0);
        assert(be_value(s.push(b)) == (b as nat) * pow2(0) + be_value(s.push(b).skip(1)));
    } else {
        assert(s.push(b).skip(1) =~= s.skip(1).push(b));
        lemma_be_value_snoc(s.skip(1), b);
        let l = s.len();
        lemma_pow2_adds((8 * (l - 1)) as nat, 8);
        lemma2_to64();
        assert(pow2((8 * l) as nat) == pow2((8 * (l - 1)) as nat) * 256);
        lemma_mul_is_associative(s[0] as int, pow2((8 * (l - 1)) as nat) as int, 256);
        assert((s[0] as nat) * pow2((8 * l) as nat) == 256 * ((s[0] as nat) * pow2(
            (8 * (l - 1)) as nat,
        )));
    }
}

/// A byte sequence's value is bounded by the width it occupies.
pub proof fn lemma_be_value_bound(s: Seq<u8>)
    ensures
        be_value(s) < pow2((8 * s.len()) as nat),
    decreases s.len(),
{
    if s.len() == 0 {
        lemma2_to64();
    } else {
        lemma_be_value_bound(s.skip(1));
        let p = pow2((8 * (s.len() - 1)) as nat);
        lemma_mul_inequality(s[0] as int, 255, p as int);
        assert((s[0] as nat) * p <= 255 * p);
        lemma_pow2_adds((8 * (s.len() - 1)) as nat, 8);
        lemma2_to64();
        assert(pow2((8 * s.len()) as nat) == p * 256);
    }
}

/// A refinement of the bound: the first octet caps the value.
pub proof fn lemma_be_value_head_bound(s: Seq<u8>, k: nat)
    requires
        s.len() >= 1,
        (s[0] as nat) < pow2(k),
    ensures
        be_value(s) < pow2((k + 8 * (s.len() - 1)) as nat),
{
    let p = pow2((8 * (s.len() - 1)) as nat);
    lemma_be_value_bound(s.skip(1));
    lemma_mul_inequality(s[0] as int, pow2(k) as int - 1, p as int);
    lemma_pow2_pos(k);
    lemma_pow2_pos((8 * (s.len() - 1)) as nat);
    assert((s[0] as nat) * p <= (pow2(k) - 1) * p);
    assert((pow2(k) - 1) * p == pow2(k) * p - p) by (nonlinear_arith);
    lemma_pow2_adds(k, (8 * (s.len() - 1)) as nat);
}

/// A nonzero first octet puts the value at or above the width's floor.
pub proof fn lemma_be_value_lower(s: Seq<u8>)
    requires
        s.len() >= 1,
        s[0] != 0,
    ensures
        be_value(s) >= pow2((8 * (s.len() - 1)) as nat),
{
    let p = pow2((8 * (s.len() - 1)) as nat);
    lemma_mul_inequality(1, s[0] as int, p as int);
}

/// Leading zero octets do not contribute to the value.
pub proof fn lemma_be_value_zero_prefix(s: Seq<u8>, k: int)
    requires
        0 <= k <= s.len(),
        forall|j: int| 0 <= j < k ==> s[j] == 0,
    ensures
        be_value(s) == be_value(s.skip(k)),
    decreases k,
{
    if k > 0 {
        assert(s.skip(1).skip(k - 1) =~= s.skip(k));
        lemma_be_value_zero_prefix(s.skip(1), k - 1);
    } else {
        assert(s.skip(0) =~= s);
    }
}

/// Two sequences of the same length with the same value are equal.
pub proof fn lemma_be_value_injective_same_len(a: Seq<u8>, b: Seq<u8>)
    requires
        a.len() == b.len(),
        be_value(a) == be_value(b),
    ensures
        a =~= b,
    decreases a.len(),
{
    if a.len() > 0 {
        let p = pow2((8 * (a.len() - 1)) as nat);
        lemma_be_value_bound(a.skip(1));
        lemma_be_value_bound(b.skip(1));
        if a[0] != b[0] {
            if (a[0] as nat) < (b[0] as nat) {
                lemma_mul_inequality(a[0] as int + 1, b[0] as int, p as int);
                assert((a[0] as int + 1) * p == (a[0] as int) * p + p) by (nonlinear_arith);
                assert(false);
            } else {
                lemma_mul_inequality(b[0] as int + 1, a[0] as int, p as int);
                assert((b[0] as int + 1) * p == (b[0] as int) * p + p) by (nonlinear_arith);
                assert(false);
            }
        }
        lemma_be_value_injective_same_len(a.skip(1), b.skip(1));
        assert forall|j: int| 0 <= j < a.len() implies a[j] == b[j] by {
            if j > 0 {
                assert(a[j] == a.skip(1)[j - 1]);
                assert(b[j] == b.skip(1)[j - 1]);
            }
        }
        assert(a =~= b);
    } else {
        assert(a =~= b);
    }
}

/// Two normalized sequences with the same value are equal: the shortest
/// big-endian form of a value is unique.
pub proof fn lemma_normalized_unique(a: Seq<u8>, b: Seq<u8>)
    requires
        normalized(a),
        normalized(b),
        be_value(a) == be_value(b),
    ensures
        a =~= b,
{
    if a.len() < b.len() {
        lemma_be_value_lower(b);
        lemma_be_value_bound(a);
        if 8 * a.len() < 8 * (b.len() - 1) {
            lemma_pow2_strictly_increases((8 * a.len()) as nat, (8 * (b.len() - 1)) as nat);
        }
        assert(false);
    } else if b.len() < a.len() {
        lemma_be_value_lower(a);
        lemma_be_value_bound(b);
        if 8 * b.len() < 8 * (a.len() - 1) {
            lemma_pow2_strictly_increases((8 * b.len()) as nat, (8 * (a.len() - 1)) as nat);
        }
        assert(false);
    } else {
        lemma_be_value_injective_same_len(a, b);
    }
}

/// A normalized sequence has value zero exactly when it is the single
/// zero octet.
pub proof fn lemma_normalized_zero(s: Seq<u8>)
    requires
        normalized(s),
    ensures
        (be_value(s) == 0) <==> (s.len() == 1 && s[0] == 0),
{
    let zs = seq![0u8];
    lemma2_to64();
    assert(zs.skip(1) =~= Seq::<u8>::empty());
    assert(be_value(Seq::<u8>::empty()) == 0);
    assert(be_value(zs) == (zs[0] as nat) * pow2(0) + be_value(zs.skip(1)));
    if s.len() == 1 && s[0] == 0 {
        assert(s =~= zs);
    }
    if be_value(s) == 0 {
        lemma_normalized_unique(s, zs);
    }
}

/// The bit length of a normalized sequence's value, read off the sequence.
pub proof fn lemma_bit_len_of_be_value(s: Seq<u8>)
    requires
        s.len() >= 1,
        s[0] != 0,
    ensures
        bit_len(be_value(s)) == 8 * (s.len() - 1) + bit_len(s[0] as nat),
    decreases s.len(),
{
    lemma2_to64();
    lemma_bit_len_bounds(s[0] as nat);
    lemma_bit_len_le(s[0] as nat, 8);
    if s.len() == 1 {
        assert(s.skip(1) =~= Seq::<u8>::empty());
        assert(be_value(Seq::<u8>::empty()) == 0);
        assert(be_value(s) == (s[0] as nat) * pow2(0) + be_value(s.skip(1)));
    } else {
        let d = s.drop_last();
        assert(d.push(s.last()) =~= s);
        lemma_be_value_snoc(d, s.last());
        lemma_bit_len_of_be_value(d);
        let v = be_value(d);
        lemma_be_value_lower(d);
        lemma_pow2_pos((8 * (d.len() - 1)) as nat);
        assert(v > 0);
        let bl = bit_len(v);
        lemma_bit_len_bounds(v);
        // 256 * v + last lies between pow2(bl + 7) and pow2(bl + 8)
        lemma_pow2_adds((bl - 1) as nat, 8);
        lemma_pow2_adds(bl, 8);
        lemma2_to64();
        lemma_mul_inequality(pow2((bl - 1) as nat) as int, v as int, 256);
        lemma_mul_inequality(v as int + 1, pow2(bl) as int, 256);
        assert(256 * v + (s.last() as nat) < 256 * (v + 1)) by {
            assert((s.last() as nat) < 256);
        }
        assert(pow2((bl + 7) as nat) <= 256 * v + (s.last() as nat)) by {
            assert(pow2((bl - 1) as nat) * 256 <= v * 256);
        }
        assert(256 * v + (s.last() as nat) < pow2((bl + 8) as nat)) by {
            assert((v + 1) * 256 <= pow2(bl) * 256);
        }
        lemma_bit_len_unique(256 * v + (s.last() as nat), bl + 8);
    }
}

/// The value of a sequence whose bits are all ones past the first octet,
/// the first octet itself being all ones in its low `r` bits.
pub proof fn lemma_be_value_all_ones(s: Seq<u8>, r: nat)
    requires
        s.len() >= 1,
        1 <= r <= 8,
        s[0] as nat == pow2(r) - 1,
        forall|j: int| 1 <= j < s.len() ==> s[j] == 255,
    ensures
        be_value(s) == pow2((r + 8 * (s.len() - 1)) as nat) - 1,
    decreases s.len(),
{
    if s.len() == 1 {
        assert(s.skip(1) =~= Seq::<u8>::empty());
        lemma2_to64();
        assert(be_value(Seq::<u8>::empty()) == 0);
        assert(be_value(s) == (s[0] as nat) * pow2(0) + be_value(s.skip(1)));
    } else {
        let d = s.drop_last();
        assert(d.push(s.last()) =~= s);
        lemma_be_value_snoc(d, s.last());
        assert(d[0] == s[0]);
        assert forall|j: int| 1 <= j < d.len() implies d[j] == 255 by {
            assert(d[j] == s[j]);
        }
        lemma_be_value_all_ones(d, r);
        let e = (r + 8 * (d.len() - 1)) as nat;
        lemma_pow2_adds(e, 8);
        lemma2_to64();
        lemma_pow2_pos(e);
        assert(s.last() == 255);
        assert(be_value(s) == 256 * (pow2(e) - 1) + 255);
        assert(256 * (pow2(e) - 1) + 255 == 256 * pow2(e) - 1);
        assert(pow2((e + 8) as nat) == pow2(e) * 256);
        assert((r + 8 * (s.len() - 1)) as nat == e + 8);
    }
}

} // verus!
