use crate::lanes::{
    LaneVector, eq_lanes, mask_of, movemask_epi8, pop_count, popcount, top_bit, LANES,
};
use crate::scalar::{lemma_occurrences_bounded, lemma_occurrences_concat, occurrences};
use vstd::prelude::*;

verus! {

/// Why the vector scan refused a buffer.
#[derive(Debug, Clone, Copy, PartialEq, Eq, Structural)]
pub enum CountError {
    /// The buffer's length, `len`, is not a multiple of the sixteen-byte
    /// chunk width; no partial chunk is ever counted.
    PreconditionViolation { len: usize },
}

/// Sixteen lanes that all hold `target`.
pub open spec fn splat(target: u8) -> Seq<u8> {
    Seq::new(16, |i: int| target)
}

/// What one step of the vector scan adds for a chunk: the number of set
/// bits of the mask of the chunk compared lane-wise with `target`.
pub open spec fn chunk_count(chunk: Seq<u8>, target: u8) -> nat {
    pop_count(mask_of(eq_lanes(chunk, splat(target))))
}

/// The vector scan of `s`: the sum of `chunk_count` over its consecutive
/// sixteen-byte chunks.
pub open spec fn vector_count(s: Seq<u8>, target: u8) -> nat
    decreases s.len(),
{
    if s.len() < 16 {
        0
    } else {
        vector_count(s.take(s.len() - 16), target) + chunk_count(s.skip(s.len() - 16), target)
    }
}

/// The set bits of the mask of a comparison against `target` are exactly
/// the lanes that hold `target`.
proof fn lemma_compare_mask_counts(s: Seq<u8>, target: u8)
    requires
        s.len() <= 16,
    ensures
        pop_count(mask_of(eq_lanes(s, Seq::new(s.len(), |i: int| target)))) == occurrences(
            s,
            target,
        ),
    decreases s.len(),
{
    let b = Seq::new(s.len(), |i: int| target);
    let c = eq_lanes(s, b);
    if s.len() > 0 {
        let rest = s.drop_first();
        let rb = Seq::new(rest.len(), |i: int| target);
        assert(c.drop_first() =~= eq_lanes(rest, rb));
        lemma_compare_mask_counts(rest, target);
        let t = top_bit(c[0]);
        let m = mask_of(c.drop_first());
        assert(mask_of(c) == t + 2 * m);
        assert((t + 2 * m) % 2 == t && (t + 2 * m) / 2 == m);
        if m == 0 {
            assert(pop_count(m) == 0);
        }
        assert(pop_count(mask_of(c)) == t + pop_count(m));
        assert(s =~= seq![s[0]] + rest);
        lemma_occurrences_concat(seq![s[0]], rest, target);
        let one = seq![s[0]];
        assert(one.drop_last().len() == 0);
        assert(occurrences(one.drop_last(), target) == 0);
        assert(one.last() == s[0]);
        assert(b[0] == target);
        assert(c[0] == (if s[0] == target { 0xFFu8 } else { 0u8 }));
        assert(occurrences(seq![s[0]], target) == t);
    }
}

/// One step of the vector scan counts exactly the bytes of its chunk that
/// equal `target`.
pub proof fn lemma_chunk_count(chunk: Seq<u8>, target: u8)
    requires
        chunk.len() == 16,
    ensures
        chunk_count(chunk, target) == occurrences(chunk, target),
{
    assert(splat(target) =~= Seq::new(chunk.len(), |i: int| target));
    lemma_compare_mask_counts(chunk, target);
}

/// On every buffer whose length is a multiple of sixteen, and for every
/// target byte, the vector scan and the byte-by-byte scan give the same
/// count.
pub proof fn lemma_vector_count_is_occurrences(s: Seq<u8>, target: u8)
    requires
        s.len() % 16 == 0,
    ensures
        vector_count(s, target) == occurrences(s, target),
    decreases s.len(),
{
    if s.len() >= 16 {
        let head = s.take(s.len() - 16);
        let tail = s.skip(s.len() - 16);
        lemma_vector_count_is_occurrences(head, target);
        lemma_chunk_count(tail, target);
        assert(s =~= head + tail);
        lemma_occurrences_concat(head, tail, target);
    }
}

/// Both scans count nothing in an empty buffer, whatever the target.
pub proof fn lemma_empty_counts(target: u8)
    ensures
        occurrences(Seq::empty(), target) == 0,
        vector_count(Seq::empty(), target) == 0,
{
}

/// Counts the bytes of `input` equal to `ch` sixteen at a time: each chunk
/// is compared lane-wise with `ch` in every lane, the comparison is
/// collapsed into a 16-bit mask, and the mask's set bits are added up.
/// A buffer whose length is not a multiple of sixteen is refused.
pub fn simd_count(input: &[u8], ch: u8) -> (r: Result<usize, CountError>)
    ensures
        match r {
            Ok(n) => input@.len() % 16 == 0 && n == vector_count(input@, ch) && n == occurrences(
                input@,
                ch,
            ),
            Err(e) => input@.len() % 16 != 0 && e == (CountError::PreconditionViolation {
                len: input@.len() as usize,
            }),
        },
{
    let len = input.len();
    if len % LANES != 0 {
        return Err(CountError::PreconditionViolation { len });
    }
    let target = LaneVector::broadcast(ch);
    let mut total: usize = 0;
    let mut start: usize = 0;
    while start < len
        invariant
            len == input@.len(),
            len % 16 == 0,
            start % 16 == 0,
            start <= len,
            target@ == splat(ch),
            total == vector_count(input@.take(start as int), ch),
            total <= start,
        decreases len - start,
    {
        let chunk = LaneVector::load(input, start);
        let matches = chunk.compare_eq(&target);
        let mask = movemask_epi8(&matches);
        let found = popcount(mask);
        proof {
            let next = input@.take(start + 16);
            assert(next.take(start as int) =~= input@.take(start as int));
            assert(next.skip(start as int) =~= chunk@);
            lemma_chunk_count(chunk@, ch);
            lemma_occurrences_bounded(chunk@, ch);
        }
        total += found as usize;
        start += LANES;
    }
    proof {
        assert(input@.take(start as int) =~= input@);
        lemma_vector_count_is_occurrences(input@, ch);
    }
    Ok(total)
}

} // verus!
