use vstd::prelude::*;

verus! {

/// The number of positions of `s` that hold `target`.
pub open spec fn occurrences(s: Seq<u8>, target: u8) -> nat
    decreases s.len(),
{
    if s.len() == 0 {
        0
    } else {
        occurrences(s.drop_last(), target) + if s.last() == target {
            1nat
        } else {
            0nat
        }
    }
}

/// Counting over two adjoining pieces adds up.
pub proof fn lemma_occurrences_concat(a: Seq<u8>, b: Seq<u8>, target: u8)
    ensures
        occurrences(a + b, target) == occurrences(a, target) + occurrences(b, target),
    decreases b.len(),
{
    if b.len() == 0 {
        assert(a + b =~= a);
    } else {
        assert((a + b).drop_last() =~= a + b.drop_last());
        lemma_occurrences_concat(a, b.drop_last(), target);
    }
}

/// A count never exceeds the length of what was scanned.
pub proof fn lemma_occurrences_bounded(s: Seq<u8>, target: u8)
    ensures
        occurrences(s, target) <= s.len(),
    decreases s.len(),
{
    if s.len() > 0 {
        lemma_occurrences_bounded(s.drop_last(), target);
    }
}

/// Counts the bytes of `input` equal to `ch`, one comparison per byte.
pub fn naive_count(input: &[u8], ch: u8) -> (total: usize)
    ensures
        total == occurrences(input@, ch),
{
    let mut total: usize = 0;
    let mut i: usize = 0;
    while i < input.len()
        invariant
            i <= input@.len(),
            total == occurrences(input@.take(i as int), ch),
        decreases input@.len() - i,
    {
        proof {
            assert(input@.take(i + 1).drop_last() =~= input@.take(i as int));
            lemma_occurrences_bounded(input@.take(i as int), ch);
        }
        if input[i] == ch {
            total += 1;
        }
        i += 1;
    }
    assert(input@.take(i as int) =~= input@);
    total
}

} // verus!
