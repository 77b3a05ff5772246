//! The EBML variable-length-integer (VINT) decoder and its queries.
//!
//! A VINT's first octets carry `n` leading zero bits followed by a set
//! marker bit; the total width is `n + 1` octets. The magnitude is the
//! remaining bits of those octets, read big-endian with the marker
//! cleared.

use vstd::prelude::*;

verus! {

use vstd::arithmetic::power2::{
    pow2, lemma_pow2_adds, lemma_pow2_pos, lemma_pow2_strictly_increases, lemma2_to64,
    lemma2_to64_rest,
};
use vstd::arithmetic::mul::lemma_mul_is_distributive_add_other_way;
use crate::bits::{
    be_value, bit_len, lemma_be_value_head_bound, lemma_be_value_snoc,
    lemma_be_value_zero_prefix, lemma_bit_len_bounds, lemma_bit_len_le, lemma_bit_len_of_be_value,
    lemma_bit_len_unique, lemma_be_value_all_ones, lemma_normalized_unique, lemma_normalized_zero,
    normalized,
};
use crate::bignum::{big_digits, big_from_bytes_be, big_to_bytes_be};
use crate::source::ByteSource;

/// Failure of a VINT decode.
#[derive(Debug)]
pub enum VarIntError {
    /// The source ran out of octets before the encoding was complete.
    /// Stands for the underlying read failing to supply the bytes asked
    /// of it.
    UnexpectedEnd,
    /// The encoding would occupy more octets than the caller allowed.
    ExceededSize,
}

/// A decoded VINT magnitude: native when the encoding fits 8 octets
/// (so the magnitude fits 64 bits), arbitrary-precision beyond that.
#[derive(Debug, PartialEq, Eq)]
pub enum VarInt {
    Native(u64),
    Big(num_bigint::BigUint),
}

/// Index of the first octet that holds a set bit.
pub open spec fn first_marker_index(s: Seq<u8>) -> int
    decreases s.len(),
{
    if s.len() == 0 {
        0
    } else if s[0] != 0 {
        0
    } else {
        1 + first_marker_index(s.skip(1))
    }
}

/// Some octet of the stream holds a set bit.
pub open spec fn has_marker(s: Seq<u8>) -> bool {
    first_marker_index(s) < s.len()
}

/// Leading zero bits of one octet.
pub open spec fn octet_leading_zeros(b: u8) -> int {
    8 - bit_len(b as nat)
}

/// Leading zero bits of the stream, counted across octets up to the
/// marker bit.
pub open spec fn zero_bit_count(s: Seq<u8>) -> int {
    8 * first_marker_index(s) + octet_leading_zeros(s[first_marker_index(s)])
}

/// Total width in octets of the encoding that starts the stream.
pub open spec fn vint_width(s: Seq<u8>) -> int {
    zero_bit_count(s) + 1
}

/// The stream starts with a complete encoding.
pub open spec fn vint_complete(s: Seq<u8>) -> bool {
    has_marker(s) && vint_width(s) <= s.len()
}

/// The magnitude encoded at the head of the stream: the first `width`
/// octets read big-endian, less the marker bit, which stands at bit
/// position `7 * width`.
pub open spec fn vint_value(s: Seq<u8>) -> int {
    be_value(s.subrange(0, vint_width(s))) - pow2((7 * vint_width(s)) as nat)
}

/// The caller's octet budget cuts the decode short.
pub open spec fn vint_exceeds(s: Seq<u8>, max_octets: Option<usize>) -> bool {
    match max_octets {
        Some(m) => has_marker(s) && vint_width(s) > m as int,
        None => false,
    }
}

/// Greatest magnitude an encoding of `octets` octets can carry.
pub open spec fn max_val_spec(octets: nat) -> nat {
    (pow2(7 * octets) - 1) as nat
}

/// Fewest octets that can carry magnitude `v`. A magnitude of zero
/// still takes one octet to encode.
pub open spec fn octets_needed_spec(v: nat) -> nat {
    if v == 0 {
        1
    } else {
        (bit_len(v) + 6) / 7
    }
}

/// The first-marker index is in range, points at a nonzero octet when
/// one exists, and everything before it is zero.
pub proof fn lemma_first_marker_props(s: Seq<u8>)
    ensures
        0 <= first_marker_index(s) <= s.len(),
        first_marker_index(s) < s.len() ==> s[first_marker_index(s)] != 0,
        forall|j: int| 0 <= j < first_marker_index(s) ==> s[j] == 0,
    decreases s.len(),
{
    if s.len() == 0 {
    } else if s[0] != 0 {
    } else {
        lemma_first_marker_props(s.skip(1));
        assert forall|j: int| 0 <= j < first_marker_index(s) implies s[j] == 0 by {
            if j > 0 {
                assert(s.skip(1)[j - 1] == s[j]);
            }
        }
        if first_marker_index(s) < s.len() {
            assert(s[first_marker_index(s)] == s.skip(1)[first_marker_index(s.skip(1))]);
        }
    }
}

/// A zero prefix pushes the first marker at least past it.
pub proof fn lemma_first_marker_from_prefix(s: Seq<u8>, i: int)
    requires
        0 <= i <= s.len(),
        forall|j: int| 0 <= j < i ==> s[j] == 0,
    ensures
        first_marker_index(s) >= i,
    decreases i,
{
    if i > 0 {
        assert(s[0] == 0);
        assert forall|j: int| 0 <= j < i - 1 implies s.skip(1)[j] == 0 by {
            assert(s.skip(1)[j] == s[j + 1]);
        }
        lemma_first_marker_from_prefix(s.skip(1), i - 1);
    } else {
        lemma_first_marker_props(s);
    }
}

/// A nonzero octet right after a zero prefix is the first marker.
pub proof fn lemma_first_marker_at(s: Seq<u8>, i: int)
    requires
        0 <= i < s.len(),
        forall|j: int| 0 <= j < i ==> s[j] == 0,
        s[i] != 0,
    ensures
        first_marker_index(s) == i,
{
    lemma_first_marker_from_prefix(s, i);
    lemma_first_marker_props(s);
    if first_marker_index(s) > i {
        assert(s[i] == 0);
    }
}

/// A complete encoding's magnitude is the big-endian value of the
/// octets past the zero prefix, with the marker bit cleared from the
/// marker octet; it spans less than `7 * width` bits.
pub proof fn lemma_vint_value_split(s: Seq<u8>, cleared: u8)
    requires
        vint_complete(s),
        cleared as nat == s[first_marker_index(s)] as nat - (pow2(
            (bit_len(s[first_marker_index(s)] as nat) - 1) as nat,
        ) as nat),
    ensures
        vint_value(s) == be_value(
            seq![cleared] + s.subrange(first_marker_index(s) + 1, vint_width(s)),
        ),
        0 <= vint_value(s) < pow2((7 * vint_width(s)) as nat),
        vint_width(s) > first_marker_index(s),
{
    let i = first_marker_index(s);
    lemma_first_marker_props(s);
    let b = s[i];
    let bl = bit_len(b as nat);
    lemma2_to64();
    lemma_bit_len_bounds(b as nat);
    lemma_bit_len_le(b as nat, 8);
    let w = vint_width(s);
    assert(w == 8 * i + 9 - bl);
    let chunk = s.subrange(0, w);
    assert forall|j: int| 0 <= j < i implies chunk[j] == 0 by {
        assert(chunk[j] == s[j]);
    }
    lemma_be_value_zero_prefix(chunk, i);
    let t = chunk.skip(i);
    let tail = s.subrange(i + 1, w);
    assert(t =~= seq![b] + tail);
    assert(t.skip(1) =~= tail);
    let p = pow2((8 * (w - i - 1)) as nat);
    assert(be_value(t) == (b as nat) * p + be_value(tail));
    let cseq = seq![cleared] + tail;
    assert(cseq.skip(1) =~= tail);
    assert(cseq[0] == cleared);
    assert(be_value(cseq) == (cleared as nat) * p + be_value(tail));
    // cleared < pow2(bl - 1), since b < pow2(bl) == 2 * pow2(bl - 1)
    lemma_pow2_adds((bl - 1) as nat, 1);
    assert(pow2(bl) == pow2((bl - 1) as nat) * 2);
    assert((cleared as nat) < pow2((bl - 1) as nat));
    // the marker bit's weight is exactly pow2(7 * w)
    lemma_pow2_adds((bl - 1) as nat, (8 * (w - i - 1)) as nat);
    assert(bl - 1 + 8 * (w - i - 1) == 7 * w);
    lemma_mul_is_distributive_add_other_way(p as int, cleared as int, pow2((bl - 1) as nat) as int);
    assert((b as nat) * p == (cleared as nat) * p + pow2((bl - 1) as nat) * p);
    assert(pow2((bl - 1) as nat) * p == pow2((7 * w) as nat));
    assert(be_value(chunk) == be_value(cseq) + pow2((7 * w) as nat));
    lemma_be_value_head_bound(cseq, (bl - 1) as nat);
    assert(bl - 1 + 8 * (cseq.len() - 1) == 7 * w);
}

/// No encoding carries more than the maximal magnitude of its width.
pub proof fn lemma_value_at_most_max(s: Seq<u8>)
    requires
        vint_complete(s),
    ensures
        0 <= vint_value(s) <= max_val_spec(vint_width(s) as nat),
{
    let i = first_marker_index(s);
    lemma_first_marker_props(s);
    lemma_bit_len_bounds(s[i] as nat);
    let c = (s[i] as nat - pow2((bit_len(s[i] as nat) - 1) as nat)) as u8;
    lemma_vint_value_split(s, c);
    lemma_pow2_pos((7 * vint_width(s)) as nat);
}

/// The encoding of `k` octets whose value bits are all ones carries
/// exactly the maximal magnitude of that width, `2^(7k) - 1`.
pub proof fn lemma_all_ones_attains_max(k: nat)
    requires
        1 <= k <= 8,
    ensures
        ({
            let s = seq![(pow2((9 - k) as nat) - 1) as u8] + Seq::new((k - 1) as nat, |j: int| 255u8);
            &&& vint_complete(s)
            &&& vint_width(s) == k
            &&& vint_value(s) == max_val_spec(k)
        }),
{
    lemma2_to64();
    let first = (pow2((9 - k) as nat) - 1) as u8;
    let s = seq![first] + Seq::new((k - 1) as nat, |j: int| 255u8);
    assert(s.len() == k);
    assert(first as nat == pow2((9 - k) as nat) - 1);
    lemma_pow2_pos((8 - k) as nat);
    lemma_pow2_adds((8 - k) as nat, 1);
    assert(pow2((9 - k) as nat) == pow2((8 - k) as nat) * 2);
    assert(first != 0);
    lemma_bit_len_unique(first as nat, (9 - k) as nat);
    assert(first_marker_index(s) == 0);
    assert(vint_width(s) == k);
    assert forall|j: int| 1 <= j < s.len() implies s[j] == 255 by {
        assert(s[j] == Seq::new((k - 1) as nat, |j2: int| 255u8)[j - 1]);
    }
    lemma_be_value_all_ones(s, (9 - k) as nat);
    assert(9 - k + 8 * (s.len() - 1) == 7 * k + 1);
    assert(s.subrange(0, k as int) =~= s);
    lemma_pow2_adds(7 * k, 1);
    lemma_pow2_pos(7 * k);
    assert(be_value(s) == pow2(7 * k + 1) - 1);
    assert(pow2(7 * k + 1) == pow2(7 * k) * 2);
}

/// A single octet with its top bit set is a complete one-octet
/// encoding whose magnitude is its 7 low bits.
pub proof fn lemma_single_octet(s: Seq<u8>)
    requires
        s.len() >= 1,
        s[0] >= 128,
    ensures
        vint_complete(s),
        vint_width(s) == 1,
        vint_value(s) == s[0] - 128,
{
    lemma2_to64();
    lemma_bit_len_unique(s[0] as nat, 8);
    assert(first_marker_index(s) == 0);
    assert(vint_width(s) == 1);
    let chunk = s.subrange(0, 1);
    assert(chunk.skip(1) =~= Seq::<u8>::empty());
    assert(be_value(Seq::<u8>::empty()) == 0);
    assert(be_value(chunk) == (s[0] as nat) * pow2(0) + be_value(chunk.skip(1)));
}

/// The width of an encoding is one more than the leading zero bits of
/// its first octet, whenever that octet is not itself all zeros.
pub proof fn lemma_width_from_first_octet(s: Seq<u8>)
    requires
        s.len() >= 1,
        s[0] != 0,
    ensures
        has_marker(s),
        vint_width(s) == 1 + octet_leading_zeros(s[0]),
{
    lemma2_to64();
    assert(first_marker_index(s) == 0);
    lemma_bit_len_bounds(s[0] as nat);
    lemma_bit_len_le(s[0] as nat, 8);
}

/// `octets_needed_spec(v)` is the least octet count, at least one,
/// whose maximal magnitude reaches `v`.
pub proof fn lemma_octets_needed_minimal(v: nat)
    ensures
        octets_needed_spec(v) >= 1,
        v <= max_val_spec(octets_needed_spec(v)),
        forall|k: nat| 1 <= k && v <= max_val_spec(k) ==> k >= octets_needed_spec(v),
{
    let need = octets_needed_spec(v);
    if v == 0 {
        lemma2_to64();
        assert(max_val_spec(1) == pow2(7) - 1);
    } else {
        lemma_bit_len_bounds(v);
        let bl = bit_len(v);
        assert(bl <= 7 * need);
        if bl < 7 * need {
            lemma_pow2_strictly_increases(bl, 7 * need);
        }
        lemma_pow2_pos(7 * need);
        assert(v <= max_val_spec(need));
        assert forall|k: nat| 1 <= k && v <= max_val_spec(k) implies k >= need by {
            if k < need {
                assert(7 * k <= bl - 1);
                if 7 * k < bl - 1 {
                    lemma_pow2_strictly_increases(7 * k, (bl - 1) as nat);
                }
                lemma_pow2_pos(7 * k);
                assert(pow2(7 * k) <= pow2((bl - 1) as nat));
                assert(max_val_spec(k) < v);
            }
        }
    }
}

/// Bit length of a 64-bit value, by repeated halving.
fn bit_len_u64(x: u64) -> (r: usize)
    ensures
        r == bit_len(x as nat),
        r <= 64,
{
    proof {
        lemma2_to64();
        lemma_bit_len_le(x as nat, 64);
    }
    let mut n = x;
    let mut r: usize = 0;
    while n > 0
        invariant
            bit_len(x as nat) == r + bit_len(n as nat),
            bit_len(x as nat) <= 64,
            r <= 64,
        decreases n,
    {
        n = n / 2;
        r = r + 1;
    }
    r
}

/// `2^e` for a small exponent, as one octet.
fn pow2_u8(e: usize) -> (r: u8)
    requires
        e <= 7,
    ensures
        r as nat == pow2(e as nat),
{
    proof {
        lemma2_to64();
    }
    if e == 0 {
        1
    } else if e == 1 {
        2
    } else if e == 2 {
        4
    } else if e == 3 {
        8
    } else if e == 4 {
        16
    } else if e == 5 {
        32
    } else if e == 6 {
        64
    } else {
        128
    }
}

/// Split a marker octet into its leading-zero-bit count and its value
/// with the topmost set bit (the marker) cleared.
fn split_marker_octet(b: u8) -> (r: (usize, u8))
    requires
        b != 0,
    ensures
        r.0 == octet_leading_zeros(b),
        r.0 <= 7,
        r.1 as nat == b as nat - (pow2((bit_len(b as nat) - 1) as nat) as nat),
{
    proof {
        lemma2_to64();
        lemma_bit_len_bounds(b as nat);
        lemma_bit_len_le(b as nat, 8);
    }
    let bl = bit_len_u64(b as u64);
    let p = pow2_u8(bl - 1);
    (8 - bl, b - p)
}

/// Consume octets up to and including the first one with a set bit;
/// hand back that octet and the count of all-zero octets before it.
#[verifier::loop_isolation(false)]
fn read_to_marker(src: &mut ByteSource) -> (r: Option<(u8, usize)>)
    requires
        old(src).wf(),
    ensures
        final(src).wf(),
        match r {
            Some(found) => {
                &&& has_marker(old(src).remaining())
                &&& found.1 == first_marker_index(old(src).remaining())
                &&& found.0 == old(src).remaining()[found.1 as int]
                &&& found.0 != 0
                &&& final(src).remaining() == old(src).remaining().skip(found.1 + 1)
            },
            None => {
                &&& !has_marker(old(src).remaining())
                &&& final(src).remaining().len() == 0
            },
        },
{
    let ghost s = old(src).remaining();
    proof {
        old(src).lemma_remaining_bounded();
    }
    let mut i: usize = 0;
    loop
        invariant
            src.wf(),
            i <= s.len(),
            src.remaining() == s.skip(i as int),
            forall|j: int| 0 <= j < i ==> s[j] == 0,
        decreases s.len() - i,
    {
        match src.read_byte() {
            None => {
                proof {
                    lemma_first_marker_from_prefix(s, i as int);
                    lemma_first_marker_props(s);
                }
                return None;
            },
            Some(b) => {
                if b != 0 {
                    proof {
                        assert(s[i as int] == b);
                        lemma_first_marker_at(s, i as int);
                        assert(s.skip(i as int).skip(1) =~= s.skip(i as int + 1));
                    }
                    return Some((b, i));
                }
                proof {
                    assert(s.skip(i as int).skip(1) =~= s.skip(i as int + 1));
                }
                i = i + 1;
            },
        }
    }
}

impl VarInt {
    /// The decoded magnitude this value stands for.
    pub open spec fn value(&self) -> nat {
        match self {
            VarInt::Native(n) => *n as nat,
            VarInt::Big(b) => be_value(big_digits(*b)),
        }
    }

    /// Decode one VINT from the source, discarding the octet count.
    pub fn from_reader(src: &mut ByteSource, max_octets: Option<usize>) -> (r: Result<
        VarInt,
        VarIntError,
    >)
        requires
            old(src).wf(),
        ensures
            final(src).wf(),
            ({
                let s = old(src).remaining();
                match r {
                    Ok(v) => {
                        &&& vint_complete(s)
                        &&& !vint_exceeds(s, max_octets)
                        &&& v.value() == vint_value(s)
                        &&& (v is Native <==> vint_width(s) <= 8)
                        &&& final(src).remaining() == s.skip(vint_width(s))
                    },
                    Err(VarIntError::ExceededSize) => {
                        &&& vint_exceeds(s, max_octets)
                        &&& final(src).remaining() == s.skip(first_marker_index(s) + 1)
                    },
                    Err(VarIntError::UnexpectedEnd) => {
                        &&& !vint_complete(s)
                        &&& !vint_exceeds(s, max_octets)
                        &&& final(src).remaining().len() == 0
                    },
                }
            }),
    {
        match Self::from_reader_with_octets(src, max_octets) {
            Ok(out) => Ok(out.0),
            Err(e) => Err(e),
        }
    }

    /// Decode one VINT from the source, together with the count of
    /// octets consumed, which its interpretation depends on.
    #[verifier::loop_isolation(false)]
    pub fn from_reader_with_octets(src: &mut ByteSource, max_octets: Option<usize>) -> (r: Result<
        (VarInt, usize),
        VarIntError,
    >)
        requires
            old(src).wf(),
        ensures
            final(src).wf(),
            ({
                let s = old(src).remaining();
                match r {
                    Ok(out) => {
                        &&& vint_complete(s)
                        &&& !vint_exceeds(s, max_octets)
                        &&& out.1 == vint_width(s)
                        &&& out.1 >= 1
                        &&& out.0.value() == vint_value(s)
                        &&& (out.0 is Native <==> vint_width(s) <= 8)
                        &&& final(src).remaining() == s.skip(vint_width(s))
                    },
                    Err(VarIntError::ExceededSize) => {
                        &&& vint_exceeds(s, max_octets)
                        &&& final(src).remaining() == s.skip(first_marker_index(s) + 1)
                    },
                    Err(VarIntError::UnexpectedEnd) => {
                        &&& !vint_complete(s)
                        &&& !vint_exceeds(s, max_octets)
                        &&& final(src).remaining().len() == 0
                    },
                }
            }),
    {
        let ghost s = old(src).remaining();
        proof {
            old(src).lemma_remaining_bounded();
        }
        let found = read_to_marker(src);
        match found {
            None => Err(VarIntError::UnexpectedEnd),
            Some((b, i)) => {
                let (lz, cleared) = split_marker_octet(b);
                proof {
                    lemma_first_marker_props(s);
                    assert(vint_width(s) == 8 * i + lz + 1);
                }
                if let Some(m) = max_octets {
                    let zc: u128 = 8 * (i as u128) + (lz as u128);
                    if zc + 1 > (m as u128) {
                        return Err(VarIntError::ExceededSize);
                    }
                }
                proof {
                    assert(!vint_exceeds(s, max_octets));
                }
                if i == 0 {
                    // native path: the whole encoding spans at most 8 octets
                    let ghost w = vint_width(s);
                    let mut value: u64 = cleared as u64;
                    let mut j: usize = 0;
                    proof {
                        lemma2_to64();
                        lemma2_to64_rest();
                        lemma_bit_len_bounds(b as nat);
                        lemma_bit_len_le(b as nat, 8);
                        assert(seq![cleared] + s.subrange(1, 1) =~= seq![cleared]);
                        assert(seq![cleared].skip(1) =~= Seq::<u8>::empty());
                        assert(be_value(Seq::<u8>::empty()) == 0);
                        assert(be_value(seq![cleared]) == (cleared as nat) * pow2(0) + 0);
                        lemma_pow2_adds((bit_len(b as nat) - 1) as nat, 1);
                    }
                    while j < lz
                        invariant
                            src.wf(),
                            j <= lz,
                            1 + j <= s.len(),
                            src.remaining() == s.skip(1 + j as int),
                            value as nat == be_value(seq![cleared] + s.subrange(1, 1 + j as int)),
                            value < pow2((7 + 8 * j) as nat),
                        decreases lz - j,
                    {
                        match src.read_byte() {
                            None => {
                                proof {
                                    assert(s.len() == 1 + j);
                                    assert(vint_width(s) > s.len());
                                }
                                return Err(VarIntError::UnexpectedEnd);
                            },
                            Some(bb) => {
                                proof {
                                    assert(bb == s[1 + j as int]);
                                    let prefix = seq![cleared] + s.subrange(1, 1 + j as int);
                                    lemma_be_value_snoc(prefix, bb);
                                    assert(prefix.push(bb) =~= seq![cleared] + s.subrange(
                                        1,
                                        1 + (j + 1) as int,
                                    ));
                                    lemma_pow2_adds((7 + 8 * j) as nat, 8);
                                    assert(256 * (value as nat) + bb < 256 * pow2(
                                        (7 + 8 * j) as nat,
                                    ));
                                    if 7 + 8 * (j + 1) < 63 {
                                        lemma_pow2_strictly_increases(
                                            (7 + 8 * (j + 1)) as nat,
                                            63,
                                        );
                                    }
                                    assert(s.skip(1 + j as int).skip(1) =~= s.skip(
                                        1 + (j + 1) as int,
                                    ));
                                }
                                value = value * 256 + (bb as u64);
                                j = j + 1;
                            },
                        }
                    }
                    proof {
                        assert(vint_complete(s));
                        lemma_vint_value_split(s, cleared);
                        assert(seq![cleared] + s.subrange(1, vint_width(s)) =~= seq![cleared]
                            + s.subrange(1, 1 + j as int));
                    }
                    Ok((VarInt::Native(value), lz + 1))
                } else {
                    // arbitrary-precision path: width exceeds 8 octets
                    let mut buf: Vec<u8> = Vec::new();
                    buf.push(cleared);
                    let tail: u128 = 7 * (i as u128) + (lz as u128);
                    let mut j: u128 = 0;
                    proof {
                        assert(buf@ =~= seq![cleared] + s.subrange(
                            i + 1 as int,
                            i + 1 + j as int,
                        ));
                    }
                    while j < tail
                        invariant
                            src.wf(),
                            j <= tail,
                            tail == 7 * (i as int) + lz,
                            i + 1 + j <= s.len(),
                            src.remaining() == s.skip(i + 1 + j as int),
                            buf@ == seq![cleared] + s.subrange(i + 1 as int, i + 1 + j as int),
                            buf@.len() == 1 + j,
                        decreases tail - j,
                    {
                        match src.read_byte() {
                            None => {
                                proof {
                                    assert(s.len() == i + 1 + j);
                                    assert(vint_width(s) > s.len());
                                }
                                return Err(VarIntError::UnexpectedEnd);
                            },
                            Some(bb) => {
                                proof {
                                    assert(bb == s[i + 1 + j as int]);
                                    assert(buf@.push(bb) =~= seq![cleared] + s.subrange(
                                        i + 1 as int,
                                        i + 1 + (j + 1) as int,
                                    ));
                                    assert(s.skip(i + 1 + j as int).skip(1) =~= s.skip(
                                        i + 1 + (j + 1) as int,
                                    ));
                                }
                                buf.push(bb);
                                j = j + 1;
                            },
                        }
                    }
                    proof {
                        assert(i + 1 + tail == vint_width(s));
                        assert(vint_complete(s));
                        lemma_vint_value_split(s, cleared);
                        assert(seq![cleared] + s.subrange(i + 1 as int, vint_width(s))
                            =~= buf@);
                    }
                    let big = big_from_bytes_be(&buf);
                    let consumed = i + buf.len();
                    Ok((VarInt::Big(big), consumed))
                }
            },
        }
    }

    /// The magnitude is zero.
    pub fn is_zero(&self) -> (r: bool)
        ensures
            r == (self.value() == 0),
    {
        match self {
            VarInt::Native(n) => *n == 0,
            VarInt::Big(b) => {
                let bytes = big_to_bytes_be(b);
                proof {
                    lemma_normalized_zero(bytes@);
                }
                bytes.len() == 1 && bytes[0] == 0
            },
        }
    }

    /// The magnitude equals the maximal one representable in
    /// `octet_count` octets.
    #[verifier::loop_isolation(false)]
    pub fn is_full(&self, octet_count: usize) -> (r: bool)
        ensures
            r == (self.value() == max_val_spec(octet_count as nat)),
    {
        match self {
            VarInt::Native(n) => {
                if octet_count <= 9 {
                    let m = Self::max_val_for_octet_count(octet_count);
                    *n == m
                } else {
                    proof {
                        lemma2_to64();
                        lemma_pow2_strictly_increases(64, 7 * octet_count as nat);
                        assert((*n as nat) < pow2(64));
                    }
                    false
                }
            },
            VarInt::Big(b) => {
                let bytes = big_to_bytes_be(b);
                if octet_count == 0 {
                    proof {
                        lemma2_to64();
                        lemma_normalized_zero(bytes@);
                    }
                    bytes.len() == 1 && bytes[0] == 0
                } else {
                    let m7: u128 = 7 * (octet_count as u128);
                    let l: u128 = (m7 + 7) / 8;
                    let rbits: u128 = m7 - 8 * (l - 1);
                    proof {
                        lemma2_to64();
                        assert(1 <= rbits <= 8);
                        lemma_pow2_pos((rbits - 1) as nat);
                        lemma_pow2_pos(rbits as nat);
                        lemma_pow2_adds((rbits - 1) as nat, 1);
                        assert(pow2(rbits as nat) == pow2((rbits - 1) as nat) * 2);
                    }
                    let first_expected: u8 = if rbits == 8 {
                        255
                    } else {
                        pow2_u8(rbits as usize) - 1
                    };
                    let ghost k = octet_count as nat;
                    let ghost c = seq![first_expected] + Seq::new((l - 1) as nat, |q: int| 255u8);
                    proof {
                        assert(first_expected as nat == pow2(rbits as nat) - 1);
                        assert(c.len() == l);
                        assert(first_expected >= 1);
                        assert(normalized(c));
                        assert(normalized(bytes@));
                        assert forall|q: int| 1 <= q < c.len() implies c[q] == 255 by {
                            assert(c[q] == Seq::new((l - 1) as nat, |q2: int| 255u8)[q - 1]);
                        }
                        lemma_be_value_all_ones(c, rbits as nat);
                        assert(rbits + 8 * (l - 1) == 7 * k);
                        lemma_pow2_pos(7 * k);
                        assert(be_value(c) == max_val_spec(k));
                        assert(self.value() == be_value(bytes@));
                    }
                    if (bytes.len() as u128) != l {
                        proof {
                            if self.value() == max_val_spec(k) {
                                lemma_normalized_unique(bytes@, c);
                                assert(false);
                            }
                        }
                        return false;
                    }
                    if bytes[0] != first_expected {
                        proof {
                            if self.value() == max_val_spec(k) {
                                lemma_normalized_unique(bytes@, c);
                                assert(false);
                            }
                        }
                        return false;
                    }
                    let mut idx: usize = 1;
                    while idx < bytes.len()
                        invariant
                            1 <= idx <= bytes.len(),
                            forall|q: int| 1 <= q < idx ==> bytes@[q] == 255,
                        decreases bytes.len() - idx,
                    {
                        if bytes[idx] != 255 {
                            proof {
                                if self.value() == max_val_spec(k) {
                                    lemma_normalized_unique(bytes@, c);
                                    assert(false);
                                }
                            }
                            return false;
                        }
                        idx = idx + 1;
                    }
                    proof {
                        assert forall|q: int| 0 <= q < bytes@.len() implies bytes@[q] == c[q] by {
                            if q >= 1 {
                                assert(c[q] == Seq::new((l - 1) as nat, |q2: int| 255u8)[q - 1]);
                            }
                        }
                        assert(bytes@ =~= c);
                    }
                    true
                }
            },
        }
    }

    /// Greatest magnitude an encoding of `octets` octets can carry:
    /// `2^(7 * octets) - 1`.
    pub fn max_val_for_octet_count(octets: usize) -> (r: u64)
        requires
            octets <= 9,
        ensures
            r as nat == max_val_spec(octets as nat),
    {
        proof {
            lemma2_to64();
        }
        let mut r: u64 = 0;
        let mut j: usize = 0;
        while j < octets
            invariant
                j <= octets <= 9,
                r as nat == max_val_spec(j as nat),
            decreases octets - j,
        {
            proof {
                lemma_pow2_adds(7 * j as nat, 7);
                lemma2_to64();
                lemma2_to64_rest();
                if 7 * (j + 1) < 63 {
                    lemma_pow2_strictly_increases((7 * (j + 1)) as nat, 63);
                }
                lemma_pow2_pos(7 * j as nat);
            }
            r = r * 128 + 127;
            j = j + 1;
        }
        r
    }

    /// Fewest octets that can carry magnitude `val`; one even for zero.
    pub fn octets_needed_for_val(val: u64) -> (r: usize)
        ensures
            r == octets_needed_spec(val as nat),
    {
        if val == 0 {
            1
        } else {
            let bits_to_repr_value = bit_len_u64(val);
            (bits_to_repr_value + 6) / 7
        }
    }

    /// Fewest octets that can carry this magnitude.
    pub fn octets_needed(&self) -> (r: usize)
        ensures
            r == octets_needed_spec(self.value()),
    {
        match self {
            VarInt::Native(n) => Self::octets_needed_for_val(*n),
            VarInt::Big(b) => {
                let bytes = big_to_bytes_be(b);
                proof {
                    lemma_normalized_zero(bytes@);
                }
                if bytes.len() == 1 && bytes[0] == 0 {
                    1
                } else {
                    proof {
                        if bytes@.len() == 1 {
                            assert(bytes@[0] != 0);
                        }
                        lemma_bit_len_of_be_value(bytes@);
                    }
                    let head_bits = bit_len_u64(bytes[0] as u64);
                    let bl: u128 = 8 * ((bytes.len() - 1) as u128) + (head_bits as u128);
                    let needed: u128 = (bl + 6) / 7;
                    proof {
                        assert(bl == bit_len(self.value()));
                        assert(bytes@.len() <= usize::MAX / 2);
                        assert(needed <= usize::MAX as u128);
                    }
                    needed as usize
                }
            },
        }
    }
}

} // verus!
