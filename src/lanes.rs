use vstd::arithmetic::div_mod::lemma_div_denominator;
use vstd::arithmetic::power2::{lemma2_to64, lemma_pow2_pos, lemma_pow2_unfold, pow2};
use vstd::bits::{lemma_u16_shr_is_div, lemma_u8_pow2_no_overflow, lemma_u8_shl_is_mul};
use vstd::prelude::*;

verus! {

/// Number of 8-bit lanes in one vector, and so the number of bytes that one
/// step of the vector scan consumes.
pub const LANES: usize = 16;

/// A vector of sixteen 8-bit lanes; lane `i` is `lanes[i]`.
pub struct LaneVector {
    pub lanes: [u8; 16],
}

impl View for LaneVector {
    type V = Seq<u8>;

    open spec fn view(&self) -> Seq<u8> {
        self.lanes@
    }
}

/// The lanes of a lane-wise equality comparison: all ones where the two
/// inputs agree, all zeros elsewhere.
pub open spec fn eq_lanes(a: Seq<u8>, b: Seq<u8>) -> Seq<u8> {
    Seq::new(
        a.len(),
        |i: int|
            if a[i] == b[i] {
                0xFFu8
            } else {
                0u8
            },
    )
}

/// The top (sign) bit of a lane, as 0 or 1.
pub open spec fn top_bit(x: u8) -> nat {
    if x >= 0x80 {
        1
    } else {
        0
    }
}

impl LaneVector {
    /// A vector with `b` in every lane.
    pub fn broadcast(b: u8) -> (r: LaneVector)
        ensures
            r@ == Seq::new(16, |i: int| b),
    {
        let r = LaneVector { lanes: [b; 16] };
        assert(r@ =~= Seq::new(16, |i: int| b));
        r
    }

    /// The sixteen bytes of `input` from `start` on, lane `i` holding
    /// `input[start + i]`.
    pub fn load(input: &[u8], start: usize) -> (r: LaneVector)
        requires
            start + 16 <= input@.len(),
        ensures
            r@ == input@.subrange(start as int, start + 16),
    {
        let len = input.len();
        let mut lanes: [u8; 16] = [0u8; 16];
        let mut i: usize = 0;
        while i < LANES
            invariant
                i <= 16,
                len == input@.len(),
                start + 16 <= len,
                forall|j: int| 0 <= j < i ==> lanes[j] == input@[start + j],
            decreases 16 - i,
        {
            lanes[i] = input[start + i];
            i += 1;
        }
        let r = LaneVector { lanes };
        assert(r@ =~= input@.subrange(start as int, start + 16));
        r
    }

    /// Lane-wise equality: lane `i` of the result is `0xFF` where lane `i` of
    /// `self` equals lane `i` of `other`, and `0x00` where it does not.
    pub fn compare_eq(&self, other: &LaneVector) -> (r: LaneVector)
        ensures
            r@ == eq_lanes(self@, other@),
    {
        let mut lanes: [u8; 16] = [0u8; 16];
        let mut i: usize = 0;
        while i < LANES
            invariant
                i <= 16,
                forall|j: int|
                    0 <= j < i ==> lanes[j] == (if self.lanes[j] == other.lanes[j] {
                        0xFFu8
                    } else {
                        0u8
                    }),
            decreases 16 - i,
        {
            lanes[i] = if self.lanes[i] == other.lanes[i] {
                0xFF
            } else {
                0
            };
            i += 1;
        }
        let r = LaneVector { lanes };
        assert(r@ =~= eq_lanes(self@, other@));
        r
    }
}


/// The bitmask of a run of lanes: bit `i` is the top bit of lane `i`.
pub open spec fn mask_of(s: Seq<u8>) -> nat
    decreases s.len(),
{
    if s.len() == 0 {
        0
    } else {
        top_bit(s[0]) + 2 * mask_of(s.drop_first())
    }
}

/// The mask of eight lanes, written out lane by lane.
proof fn lemma_mask_of_eight(s: Seq<u8>)
    requires
        s.len() == 8,
    ensures
        mask_of(s) == top_bit(s[0]) + 2 * top_bit(s[1]) + 4 * top_bit(s[2]) + 8 * top_bit(s[3])
            + 16 * top_bit(s[4]) + 32 * top_bit(s[5]) + 64 * top_bit(s[6]) + 128 * top_bit(
            s[7],
        ),
{
    reveal_with_fuel(mask_of, 9);
}

/// Masking a lane with `0x80` and shifting it right by `7 - k` leaves its
/// top bit at position `k`.
proof fn lemma_spread_bit(x: u8, k: u8, shift: u8)
    by (bit_vector)
    requires
        k < 8,
        shift + k == 7,
    ensures
        (x & 0x80) >> shift == if x >= 0x80 {
            1u8 << k
        } else {
            0u8
        },
{
}

/// For the eight lanes from `base` on, moves the top bit of lane `base + k`
/// to bit `k` of lane `k`, clearing the other bits.
fn spread_half(v: &LaneVector, base: usize) -> (r: [u8; 8])
    requires
        base == 0 || base == 8,
    ensures
        forall|k: int| 0 <= k < 8 ==> r[k] == top_bit(v.lanes[base + k]) * pow2(k as nat),
{
    let mut r: [u8; 8] = [0u8; 8];
    let mut k: usize = 0;
    while k < 8
        invariant
            k <= 8,
            base == 0 || base == 8,
            forall|j: int| 0 <= j < k ==> r[j] == top_bit(v.lanes[base + j]) * pow2(j as nat),
        decreases 8 - k,
    {
        let lane = v.lanes[base + k];
        let shift: u8 = 7 - k as u8;
        proof {
            lemma_spread_bit(lane, k as u8, shift);
            lemma_u8_pow2_no_overflow(k as nat);
            lemma_u8_shl_is_mul(1, k as u8);
        }
        r[k] = (lane & 0x80) >> shift;
        k += 1;
    }
    r
}

/// The sum of the `k`-th pair of neighbouring lanes of `a`.
pub open spec fn pair_sum(a: [u8; 8], k: int) -> int {
    a[2 * k] + a[2 * k + 1]
}

/// Adds neighbouring lanes in pairs: the first four lanes of the result are
/// the pair sums of `a`, the last four those of `b`.
fn pairwise_add(a: &[u8; 8], b: &[u8; 8]) -> (r: [u8; 8])
    requires
        forall|k: int| 0 <= k < 4 ==> #[trigger] pair_sum(*a, k) <= 0xFF,
        forall|k: int| 0 <= k < 4 ==> #[trigger] pair_sum(*b, k) <= 0xFF,
    ensures
        forall|k: int| 0 <= k < 4 ==> #[trigger] r[k] == pair_sum(*a, k),
        forall|k: int| 0 <= k < 4 ==> r[k + 4] == #[trigger] pair_sum(*b, k),
{
    let mut r: [u8; 8] = [0u8; 8];
    let mut k: usize = 0;
    while k < 4
        invariant
            k <= 4,
            forall|j: int| 0 <= j < 4 ==> #[trigger] pair_sum(*a, j) <= 0xFF,
            forall|j: int| 0 <= j < 4 ==> #[trigger] pair_sum(*b, j) <= 0xFF,
            forall|j: int| 0 <= j < k ==> #[trigger] r[j] == pair_sum(*a, j),
            forall|j: int| 0 <= j < k ==> r[j + 4] == #[trigger] pair_sum(*b, j),
        decreases 4 - k,
    {
        assert(pair_sum(*a, k as int) <= 0xFF && pair_sum(*b, k as int) <= 0xFF);
        r[k] = a[2 * k] + a[2 * k + 1];
        r[k + 4] = b[2 * k] + b[2 * k + 1];
        k += 1;
    }
    r
}

/// Packs the top bits of the eight lanes from `base` on into one byte, lane
/// `base + k` giving bit `k`: each lane is masked and shifted into place,
/// and three rounds of pairwise addition gather the bits into the first lane.
#[verifier::rlimit(30)]
fn pack_half(v: &LaneVector, base: usize) -> (r: u8)
    requires
        base == 0 || base == 8,
    ensures
        r == mask_of(v@.subrange(base as int, base + 8)),
{
    let spread = spread_half(v, base);
    proof {
        lemma2_to64();
        assert(spread[0] <= 1 && spread[1] <= 2 && spread[2] <= 4 && spread[3] <= 8);
        assert(spread[4] <= 16 && spread[5] <= 32 && spread[6] <= 64 && spread[7] <= 128);
        assert(pair_sum(spread, 0) <= 3 && pair_sum(spread, 1) <= 12);
        assert(pair_sum(spread, 2) <= 48 && pair_sum(spread, 3) <= 192);
    }
    let p1 = pairwise_add(&spread, &spread);
    proof {
        assert(p1[0] == pair_sum(spread, 0) && p1[1] == pair_sum(spread, 1));
        assert(p1[2] == pair_sum(spread, 2) && p1[3] == pair_sum(spread, 3));
        assert(p1[4] == pair_sum(spread, 0) && p1[5] == pair_sum(spread, 1));
        assert(p1[6] == pair_sum(spread, 2) && p1[7] == pair_sum(spread, 3));
        assert(pair_sum(p1, 0) <= 15 && pair_sum(p1, 1) <= 240);
        assert(pair_sum(p1, 2) <= 15 && pair_sum(p1, 3) <= 240);
    }
    let p2 = pairwise_add(&p1, &p1);
    proof {
        assert(p2[0] == pair_sum(p1, 0) && p2[1] == pair_sum(p1, 1));
        assert(p2[2] == pair_sum(p1, 2) && p2[3] == pair_sum(p1, 3));
        assert(p2[4] == pair_sum(p1, 0) && p2[5] == pair_sum(p1, 1));
        assert(p2[6] == pair_sum(p1, 2) && p2[7] == pair_sum(p1, 3));
        assert(pair_sum(p2, 0) <= 255 && pair_sum(p2, 1) <= 255);
        assert(pair_sum(p2, 2) <= 255 && pair_sum(p2, 3) <= 255);
    }
    let p3 = pairwise_add(&p2, &p2);
    proof {
        assert(p3[0] == pair_sum(p2, 0));
        let s = v@.subrange(base as int, base + 8);
        lemma_mask_of_eight(s);
    }
    p3[0]
}

/// The mask of two runs of lanes side by side: the second run's bits come
/// after the first run's.
pub proof fn lemma_mask_of_concat(a: Seq<u8>, b: Seq<u8>)
    ensures
        mask_of(a + b) == mask_of(a) + pow2(a.len()) * mask_of(b),
    decreases a.len(),
{
    if a.len() == 0 {
        assert(a + b =~= b);
        lemma2_to64();
    } else {
        assert((a + b).drop_first() =~= a.drop_first() + b);
        lemma_mask_of_concat(a.drop_first(), b);
        lemma_pow2_unfold(a.len());
        assert(2 * (pow2((a.len() - 1) as nat) * mask_of(b)) == pow2(a.len()) * mask_of(b))
            by (nonlinear_arith)
            requires
                pow2(a.len()) == 2 * pow2((a.len() - 1) as nat),
        ;
    }
}

/// Dividing a mask by `2^i` drops the bits of its first `i` lanes.
proof fn lemma_mask_of_shift(s: Seq<u8>, i: nat)
    requires
        i <= s.len(),
    ensures
        mask_of(s) / pow2(i) == mask_of(s.skip(i as int)),
    decreases i,
{
    if i == 0 {
        lemma2_to64();
        assert(s.skip(0) =~= s);
    } else {
        let rest = s.drop_first();
        lemma_mask_of_shift(rest, (i - 1) as nat);
        assert(rest.skip(i - 1) =~= s.skip(i as int));
        lemma_pow2_unfold(i);
        lemma_pow2_pos((i - 1) as nat);
        lemma_div_denominator(mask_of(s) as int, 2, pow2((i - 1) as nat) as int);
    }
}

/// Bit `i` of the mask of `s` is the top bit of lane `i`.
pub proof fn lemma_mask_of_bit(s: Seq<u8>, i: nat)
    requires
        i < s.len(),
    ensures
        (mask_of(s) / pow2(i)) % 2 == top_bit(s[i as int]),
{
    lemma_mask_of_shift(s, i);
    assert(s.skip(i as int)[0] == s[i as int]);
}

/// Whether bit `i` of `m` is set.
pub open spec fn mask_bit(m: u16, i: int) -> bool {
    (m >> (i as u16)) & 1 == 1
}

/// Collapses the lanes of `v` into a 16-bit mask: bit `i` is set exactly
/// when the top bit of lane `i` is set, lane 0 giving the least significant
/// bit. On the result of a comparison, whose lanes are `0x00` or `0xFF`, bit
/// `i` is set exactly when lane `i` compared equal.
pub fn movemask_epi8(v: &LaneVector) -> (r: u16)
    ensures
        r == mask_of(v@),
        forall|i: int| 0 <= i < 16 ==> (#[trigger] mask_bit(r, i) <==> v@[i] >= 0x80),
{
    let lo = pack_half(v, 0);
    let hi = pack_half(v, 8);
    let r: u16 = ((hi as u16) << 8u16) | (lo as u16);
    proof {
        assert(((hi as u16) << 8u16) | (lo as u16) == lo + 256 * hi) by (bit_vector);
        assert(v@ =~= v@.subrange(0, 8) + v@.subrange(8, 16));
        lemma_mask_of_concat(v@.subrange(0, 8), v@.subrange(8, 16));
        lemma2_to64();
        assert forall|i: int| 0 <= i < 16 implies (#[trigger] mask_bit(r, i) <==> v@[i] >= 0x80) by {
            let iu = i as u16;
            lemma_mask_of_bit(v@, i as nat);
            lemma_u16_shr_is_div(r, iu);
            let q = r >> iu;
            assert(q & 1 == q % 2) by (bit_vector);
        }
    }
    r
}

/// The number of set bits of `n`.
pub open spec fn pop_count(n: nat) -> nat
    decreases n,
{
    if n == 0 {
        0
    } else {
        n % 2 + pop_count(n / 2)
    }
}

/// A number has no more set bits than its value.
proof fn lemma_pop_count_bounded(n: nat)
    ensures
        pop_count(n) <= n,
    decreases n,
{
    if n > 0 {
        lemma_pop_count_bounded(n / 2);
    }
}

/// The population count of `m`: the number of its bits that are set.
pub fn popcount(m: u16) -> (r: u32)
    ensures
        r == pop_count(m as nat),
{
    let mut x: u16 = m;
    let mut count: u32 = 0;
    proof {
        lemma_pop_count_bounded(m as nat);
    }
    while x != 0
        invariant
            count + pop_count(x as nat) == pop_count(m as nat),
            pop_count(m as nat) <= m,
        decreases x,
    {
        assert(x & 1 == x % 2) by (bit_vector);
        assert(x >> 1 == x / 2) by (bit_vector);
        count += (x & 1) as u32;
        x = x >> 1;
    }
    count
}

} // verus!
