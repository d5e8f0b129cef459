//! The narrow phase's bookkeeping: which circles collide this frame, and
//! how many colliding pairs there are.

use vstd::prelude::*;

verus! {

/// The number of `true` entries of `s`.
pub open spec fn count_true(s: Seq<bool>) -> nat
    decreases s.len(),
{
    if s.len() == 0 {
        0
    } else {
        count_true(s.drop_last()) + if s.last() {
            1nat
        } else {
            0nat
        }
    }
}

/// Circle `i` belongs to one of the first `m` pairs, and that pair was
/// found to overlap.
pub open spec fn touched_within(
    pairs: Seq<(usize, usize)>,
    overlapping: Seq<bool>,
    m: int,
    i: usize,
) -> bool {
    exists|k: int|
        #![trigger pairs[k]]
        0 <= k < m && overlapping[k] && (pairs[k].0 == i || pairs[k].1 == i)
}

/// Circle `i` belongs to a pair found to overlap.
pub open spec fn touched(pairs: Seq<(usize, usize)>, overlapping: Seq<bool>, i: usize) -> bool {
    touched_within(pairs, overlapping, pairs.len() as int, i)
}

/// Circle `i` is touched exactly when some pair found to overlap, at any
/// position, has `i` as one of its two circles.
pub proof fn lemma_touched(pairs: Seq<(usize, usize)>, overlapping: Seq<bool>, i: usize)
    ensures
        touched(pairs, overlapping, i) <==> exists|k: int|
            #![trigger pairs[k]]
            0 <= k < pairs.len() && overlapping[k] && (pairs[k].0 == i || pairs[k].1 == i),
{
}

/// The count of `true` entries never exceeds the length.
pub proof fn lemma_count_true_bound(s: Seq<bool>)
    ensures
        count_true(s) <= s.len(),
    decreases s.len(),
{
    if s.len() > 0 {
        lemma_count_true_bound(s.drop_last());
    }
}

/// The count of `true` entries is the length of `s` with its `false`
/// entries left out.
pub proof fn lemma_count_true_is_filter_len(s: Seq<bool>)
    ensures
        count_true(s) == s.filter(|b: bool| b).len(),
    decreases s.len(),
{
    if s.len() > 0 {
        let t = s.drop_last();
        lemma_count_true_is_filter_len(t);
        assert(s =~= t.push(s.last()));
        t.lemma_filter_push(s.last(), |b: bool| b);
    }
}

/// Given the candidate pairs and, for each, whether the narrow phase found
/// its two circles overlapping, marks every circle that belongs to an
/// overlapping pair and counts the overlapping pairs. Every circle starts
/// the frame unmarked.
pub fn mark_collisions(
    circle_count: usize,
    pairs: &Vec<(usize, usize)>,
    overlapping: &Vec<bool>,
) -> (result: (Vec<bool>, usize))
    requires
        pairs@.len() == overlapping@.len(),
        forall|k: int|
            #![trigger pairs@[k]]
            0 <= k < pairs@.len() ==> pairs@[k].0 < circle_count && pairs@[k].1 < circle_count,
    ensures
        result.0@.len() == circle_count,
        forall|i: int|
            0 <= i < circle_count ==> #[trigger] result.0@[i] == touched(
                pairs@,
                overlapping@,
                i as usize,
            ),
        result.1 == count_true(overlapping@),
        forall|i: int|
            0 <= i < circle_count ==> (#[trigger] result.0@[i] <==> exists|k: int|
                #![trigger pairs@[k]]
                0 <= k < pairs@.len() && overlapping@[k] && (pairs@[k].0 == i || pairs@[k].1
                    == i)),
        result.1 == overlapping@.filter(|b: bool| b).len(),
{
    let mut colliding: Vec<bool> = Vec::with_capacity(circle_count);
    let mut i: usize = 0;
    while i < circle_count
        invariant
            i <= circle_count,
            colliding@.len() == i,
            forall|k: int| 0 <= k < i ==> !(#[trigger] colliding@[k]),
        decreases circle_count - i,
    {
        colliding.push(false);
        i = i + 1;
    }
    let mut collisions: usize = 0;
    let mut k: usize = 0;
    while k < pairs.len()
        invariant
            pairs@.len() == overlapping@.len(),
            k <= pairs@.len(),
            colliding@.len() == circle_count,
            forall|q: int|
                #![trigger pairs@[q]]
                0 <= q < pairs@.len() ==> pairs@[q].0 < circle_count && pairs@[q].1
                    < circle_count,
            forall|c: int|
                0 <= c < circle_count ==> #[trigger] colliding@[c] == touched_within(
                    pairs@,
                    overlapping@,
                    k as int,
                    c as usize,
                ),
            collisions == count_true(overlapping@.subrange(0, k as int)),
        decreases pairs@.len() - k,
    {
        let (a, b) = pairs[k];
        proof {
            assert(overlapping@.subrange(0, k + 1).drop_last() =~= overlapping@.subrange(
                0,
                k as int,
            ));
            lemma_count_true_bound(overlapping@.subrange(0, k as int));
        }
        if overlapping[k] {
            colliding[a] = true;
            colliding[b] = true;
            collisions = collisions + 1;
        }
        proof {
            assert forall|c: int| 0 <= c < circle_count implies #[trigger] colliding@[c]
                == touched_within(pairs@, overlapping@, k + 1, c as usize) by {
                if touched_within(pairs@, overlapping@, k + 1, c as usize) {
                    let q = choose|q: int|
                        #![trigger pairs@[q]]
                        0 <= q < k + 1 && overlapping@[q] && (pairs@[q].0 == c as usize
                            || pairs@[q].1 == c as usize);
                    if q < k {
                        assert(touched_within(pairs@, overlapping@, k as int, c as usize));
                    }
                }
                if touched_within(pairs@, overlapping@, k as int, c as usize) {
                    let q = choose|q: int|
                        #![trigger pairs@[q]]
                        0 <= q < k && overlapping@[q] && (pairs@[q].0 == c as usize
                            || pairs@[q].1 == c as usize);
                    assert(0 <= q < k + 1 && overlapping@[q]);
                }
                if overlapping@[k as int] && (c == a || c == b) {
                    assert(pairs@[k as int] == (a, b));
                }
            }
        }
        k = k + 1;
    }
    assert(overlapping@.subrange(0, pairs@.len() as int) =~= overlapping@);
    proof {
        lemma_count_true_is_filter_len(overlapping@);
        assert forall|i: int| 0 <= i < circle_count implies (#[trigger] colliding@[i] <==> exists|
            k: int,
        |
            #![trigger pairs@[k]]
            0 <= k < pairs@.len() && overlapping@[k] && (pairs@[k].0 == i || pairs@[k].1 == i)) by {
            assert(colliding@[i] == touched(pairs@, overlapping@, i as usize));
        }
    }
    (colliding, collisions)
}

} // verus!
