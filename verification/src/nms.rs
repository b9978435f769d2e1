//! Class-aware non-maximum suppression.
use vstd::prelude::*;
use crate::bbox::{iou_exceeds, lemma_iou_symmetric, Bbox, BoxModel};
use crate::y::box_models;

verus! {

/// The confidences never rise along the sequence.
pub open spec fn descending(s: Seq<BoxModel>) -> bool {
    forall|i: int, j: int| 0 <= i < j < s.len() ==> (#[trigger] s[i]).confidence >= (#[trigger] s[j]).confidence
}

/// The place of `b` in a descending sequence: after every box that is at
/// least as confident.
pub open spec fn slot(s: Seq<BoxModel>, b: BoxModel) -> int
    decreases s.len(),
{
    if s.len() == 0 {
        0
    } else if s.last().confidence >= b.confidence {
        s.len() as int
    } else {
        slot(s.drop_last(), b)
    }
}

/// The boxes by descending confidence; boxes of equal confidence keep the
/// order in which they were given.
pub open spec fn by_confidence(s: Seq<BoxModel>) -> Seq<BoxModel>
    decreases s.len(),
{
    if s.len() == 0 {
        Seq::empty()
    } else {
        let front = by_confidence(s.drop_last());
        front.insert(slot(front, s.last()), s.last())
    }
}

/// The box `kept` removes the candidate `cand`: both are of one class and
/// their intersection-over-union is strictly above the threshold.
pub open spec fn suppresses(kept: BoxModel, cand: BoxModel, threshold_ppm: nat) -> bool {
    kept.id == cand.id && iou_exceeds(kept, cand, threshold_ppm)
}

/// One of the kept boxes removes the candidate.
pub open spec fn suppressed_by_any(kept: Seq<BoxModel>, cand: BoxModel, threshold_ppm: nat) -> bool {
    exists|i: int| 0 <= i < kept.len() && suppresses(#[trigger] kept[i], cand, threshold_ppm)
}

/// The boxes kept among the first `k` of an ordered sequence: each box is
/// kept unless a box kept before it removes it.
pub open spec fn greedy(ordered: Seq<BoxModel>, k: nat, threshold_ppm: nat) -> Seq<BoxModel>
    decreases k,
{
    if k == 0 {
        Seq::empty()
    } else {
        let kept = greedy(ordered, (k - 1) as nat, threshold_ppm);
        if suppressed_by_any(kept, ordered[k - 1], threshold_ppm) {
            kept
        } else {
            kept.push(ordered[k - 1])
        }
    }
}

/// The survivors of non-maximum suppression, most confident first.
pub open spec fn suppressed(s: Seq<BoxModel>, threshold_ppm: nat) -> Seq<BoxModel> {
    let ordered = by_confidence(s);
    greedy(ordered, ordered.len(), threshold_ppm)
}

/// No box of the sequence removes a later one.
pub open spec fn unsuppressed(s: Seq<BoxModel>, threshold_ppm: nat) -> bool {
    forall|i: int, j: int| 0 <= i < j < s.len() ==> !suppresses(#[trigger] s[i], #[trigger] s[j], threshold_ppm)
}

/// In a descending sequence, the place before which every box is at least as
/// confident as `b` and at which the box is less confident is the slot of
/// `b`.
pub proof fn lemma_slot(s: Seq<BoxModel>, b: BoxModel, pos: int)
    requires
        descending(s),
        0 <= pos <= s.len(),
        forall|t: int| 0 <= t < pos ==> (#[trigger] s[t]).confidence >= b.confidence,
        pos < s.len() ==> s[pos].confidence < b.confidence,
    ensures
        slot(s, b) == pos,
    decreases s.len(),
{
    if s.len() > 0 {
        if s.last().confidence >= b.confidence {
            if pos < s.len() - 1 {
                assert(s[pos].confidence >= s[s.len() - 1].confidence);
            }
        } else {
            let front = s.drop_last();
            assert(descending(front)) by {
                assert forall|i: int, j: int| 0 <= i < j < front.len() implies (#[trigger] front[i]).confidence >= (
                #[trigger] front[j]).confidence by {
                    assert(s[i].confidence >= s[j].confidence);
                }
            }
            lemma_slot(front, b, pos);
        }
    }
}

/// The slot of `b` in a descending sequence splits it into the boxes at
/// least as confident as `b` and the boxes less confident.
pub proof fn lemma_slot_splits(s: Seq<BoxModel>, b: BoxModel)
    requires
        descending(s),
    ensures
        0 <= slot(s, b) <= s.len(),
        forall|t: int| 0 <= t < slot(s, b) ==> (#[trigger] s[t]).confidence >= b.confidence,
        forall|t: int| slot(s, b) <= t < s.len() ==> (#[trigger] s[t]).confidence < b.confidence,
    decreases s.len(),
{
    if s.len() > 0 {
        if s.last().confidence >= b.confidence {
            assert forall|t: int| 0 <= t < s.len() implies (#[trigger] s[t]).confidence >= b.confidence by {
                if t < s.len() - 1 {
                    assert(s[t].confidence >= s[s.len() - 1].confidence);
                }
            }
        } else {
            let front = s.drop_last();
            assert(descending(front)) by {
                assert forall|i: int, j: int| 0 <= i < j < front.len() implies (#[trigger] front[i]).confidence >= (
                #[trigger] front[j]).confidence by {
                    assert(s[i].confidence >= s[j].confidence);
                }
            }
            lemma_slot_splits(front, b);
            assert forall|t: int| slot(s, b) <= t < s.len() implies (#[trigger] s[t]).confidence
                < b.confidence by {
                if t < s.len() - 1 {
                    assert(front[t].confidence < b.confidence);
                }
            }
            assert forall|t: int| 0 <= t < slot(s, b) implies (#[trigger] s[t]).confidence >= b.confidence by {
                assert(front[t].confidence >= b.confidence);
            }
        }
    }
}

/// Putting a box into its slot keeps a descending sequence descending.
pub proof fn lemma_insert_descending(s: Seq<BoxModel>, b: BoxModel)
    requires
        descending(s),
    ensures
        descending(s.insert(slot(s, b), b)),
{
    lemma_slot_splits(s, b);
    let pos = slot(s, b);
    let out = s.insert(pos, b);
    assert forall|i: int, j: int| 0 <= i < j < out.len() implies (#[trigger] out[i]).confidence >= (
    #[trigger] out[j]).confidence by {
        if j < pos {
            assert(s[i].confidence >= s[j].confidence);
        } else if j == pos {
            assert(out[i] == s[i]);
        } else if i < pos {
            assert(out[i] == s[i] && out[j] == s[j - 1]);
            assert(s[i].confidence >= b.confidence);
            assert(s[j - 1].confidence < b.confidence);
        } else if i == pos {
            assert(out[j] == s[j - 1]);
        } else {
            assert(out[i] == s[i - 1] && out[j] == s[j - 1]);
            assert(s[i - 1].confidence >= s[j - 1].confidence);
        }
    }
}

/// Ordering by confidence gives a descending sequence of the same length.
pub proof fn lemma_by_confidence_descending(s: Seq<BoxModel>)
    ensures
        descending(by_confidence(s)),
        by_confidence(s).len() == s.len(),
    decreases s.len(),
{
    if s.len() > 0 {
        lemma_by_confidence_descending(s.drop_last());
        lemma_insert_descending(by_confidence(s.drop_last()), s.last());
        lemma_slot_splits(by_confidence(s.drop_last()), s.last());
    }
}

/// A descending sequence is already ordered by confidence.
pub proof fn lemma_descending_is_ordered(s: Seq<BoxModel>)
    requires
        descending(s),
    ensures
        by_confidence(s) == s,
    decreases s.len(),
{
    if s.len() > 0 {
        let front = s.drop_last();
        assert(descending(front)) by {
            assert forall|i: int, j: int| 0 <= i < j < front.len() implies (#[trigger] front[i]).confidence >= (
            #[trigger] front[j]).confidence by {
                assert(s[i].confidence >= s[j].confidence);
            }
        }
        lemma_descending_is_ordered(front);
        assert forall|t: int| 0 <= t < front.len() implies (#[trigger] front[t]).confidence
            >= s.last().confidence by {
            assert(s[t].confidence >= s[s.len() - 1].confidence);
        }
        lemma_slot(front, s.last(), front.len() as int);
        assert(front.insert(front.len() as int, s.last()) =~= s);
    } else {
        assert(by_confidence(s) =~= s);
    }
}

/// The kept boxes are boxes of the ordered sequence, in its order: they are
/// descending when it is, and none of them removes a later one.
pub proof fn lemma_greedy(ordered: Seq<BoxModel>, k: nat, threshold_ppm: nat)
    requires
        descending(ordered),
        k <= ordered.len(),
    ensures
        descending(greedy(ordered, k, threshold_ppm)),
        unsuppressed(greedy(ordered, k, threshold_ppm), threshold_ppm),
        greedy(ordered, k, threshold_ppm).len() <= k,
        forall|i: int|
            0 <= i < greedy(ordered, k, threshold_ppm).len() ==> exists|j: int|
                0 <= j < k && ordered[j] == #[trigger] greedy(ordered, k, threshold_ppm)[i],
    decreases k,
{
    if k > 0 {
        let kept = greedy(ordered, (k - 1) as nat, threshold_ppm);
        lemma_greedy(ordered, (k - 1) as nat, threshold_ppm);
        let cand = ordered[k - 1];
        let out = greedy(ordered, k, threshold_ppm);
        if suppressed_by_any(kept, cand, threshold_ppm) {
            assert forall|i: int| 0 <= i < out.len() implies exists|j: int|
                0 <= j < k && ordered[j] == #[trigger] out[i] by {
                let j = choose|j: int| 0 <= j < k - 1 && ordered[j] == kept[i];
                assert(0 <= j < k && ordered[j] == out[i]);
            }
        } else {
            assert forall|i: int, j: int| 0 <= i < j < out.len() implies (#[trigger] out[i]).confidence >= (
            #[trigger] out[j]).confidence && !suppresses(out[i], out[j], threshold_ppm) by {
                if j < kept.len() {
                    assert(kept[i].confidence >= kept[j].confidence);
                    assert(!suppresses(kept[i], kept[j], threshold_ppm));
                } else {
                    let w = choose|w: int| 0 <= w < k - 1 && ordered[w] == kept[i];
                    assert(ordered[w].confidence >= ordered[k - 1].confidence);
                    assert(!suppresses(kept[i], cand, threshold_ppm));
                }
            }
            assert forall|i: int| 0 <= i < out.len() implies exists|j: int|
                0 <= j < k && ordered[j] == #[trigger] out[i] by {
                if i < kept.len() {
                    let j = choose|j: int| 0 <= j < k - 1 && ordered[j] == kept[i];
                    assert(0 <= j < k && ordered[j] == out[i]);
                } else {
                    assert(ordered[k - 1] == out[i]);
                }
            }
        }
    }
}

/// Where no box removes a later one, every box is kept.
pub proof fn lemma_greedy_keeps_all(s: Seq<BoxModel>, k: nat, threshold_ppm: nat)
    requires
        unsuppressed(s, threshold_ppm),
        k <= s.len(),
    ensures
        greedy(s, k, threshold_ppm) == s.take(k as int),
    decreases k,
{
    if k > 0 {
        lemma_greedy_keeps_all(s, (k - 1) as nat, threshold_ppm);
        let kept = s.take(k - 1);
        if suppressed_by_any(kept, s[k - 1], threshold_ppm) {
            let i = choose|i: int| 0 <= i < kept.len() && suppresses(#[trigger] kept[i], s[k - 1], threshold_ppm);
            assert(!suppresses(s[i], s[k - 1], threshold_ppm));
        }
        assert(kept.push(s[k - 1]) =~= s.take(k as int));
    } else {
        assert(s.take(0) =~= Seq::empty());
    }
}

/// Suppression leaves alone a descending sequence in which no box removes a
/// later one.
pub proof fn lemma_suppression_fixed_point(s: Seq<BoxModel>, threshold_ppm: nat)
    requires
        descending(s),
        unsuppressed(s, threshold_ppm),
    ensures
        suppressed(s, threshold_ppm) == s,
{
    lemma_descending_is_ordered(s);
    lemma_greedy_keeps_all(s, s.len(), threshold_ppm);
    assert(s.take(s.len() as int) =~= s);
}

/// Suppressing twice gives what suppressing once gives.
pub proof fn lemma_suppression_idempotent(s: Seq<BoxModel>, threshold_ppm: nat)
    ensures
        suppressed(suppressed(s, threshold_ppm), threshold_ppm) == suppressed(s, threshold_ppm),
{
    let ordered = by_confidence(s);
    lemma_by_confidence_descending(s);
    lemma_greedy(ordered, ordered.len(), threshold_ppm);
    lemma_suppression_fixed_point(suppressed(s, threshold_ppm), threshold_ppm);
}

/// Among the survivors, no two boxes of one class overlap by more than the
/// threshold, and the survivors come most confident first.
pub proof fn lemma_survivors_disjoint(s: Seq<BoxModel>, threshold_ppm: nat)
    ensures
        descending(suppressed(s, threshold_ppm)),
        suppressed(s, threshold_ppm).len() <= s.len(),
        forall|i: int, j: int|
            0 <= i < suppressed(s, threshold_ppm).len() && 0 <= j < suppressed(s, threshold_ppm).len() && i
                != j ==> !suppresses(
                #[trigger] suppressed(s, threshold_ppm)[i],
                #[trigger] suppressed(s, threshold_ppm)[j],
                threshold_ppm,
            ),
{
    let ordered = by_confidence(s);
    lemma_by_confidence_descending(s);
    lemma_greedy(ordered, ordered.len(), threshold_ppm);
    let out = suppressed(s, threshold_ppm);
    assert forall|i: int, j: int| 0 <= i < out.len() && 0 <= j < out.len() && i != j implies !suppresses(
        #[trigger] out[i],
        #[trigger] out[j],
        threshold_ppm,
    ) by {
        if i < j {
            assert(!suppresses(out[i], out[j], threshold_ppm));
        } else {
            assert(!suppresses(out[j], out[i], threshold_ppm));
            lemma_iou_symmetric(out[j], out[i], threshold_ppm);
        }
    }
}

/// Orders the boxes by descending confidence; boxes of equal confidence keep
/// the order in which they were given.
pub fn sort_by_confidence(boxes: &Vec<Bbox>) -> (out: Vec<Bbox>)
    ensures
        box_models(out@) == by_confidence(box_models(boxes@)),
        out@.len() == boxes@.len(),
{
    let ghost input = box_models(boxes@);
    let mut out: Vec<Bbox> = Vec::new();
    let mut k: usize = 0;
    assert(box_models(out@) =~= by_confidence(input.take(0)));
    while k < boxes.len()
        invariant
            k <= boxes@.len(),
            input == box_models(boxes@),
            out@.len() == k,
            box_models(out@) == by_confidence(input.take(k as int)),
            descending(box_models(out@)),
        decreases boxes@.len() - k,
    {
        let b: Bbox = boxes[k];
        let c: u32 = b.confidence();
        let mut pos: usize = 0;
        while pos < out.len() && out[pos].confidence() >= c
            invariant
                pos <= out@.len(),
                c == b@.confidence,
                forall|t: int| 0 <= t < pos ==> (#[trigger] box_models(out@)[t]).confidence >= b@.confidence,
            decreases out@.len() - pos,
        {
            pos += 1;
        }
        let ghost before = box_models(out@);
        proof {
            lemma_slot(before, b@, pos as int);
            lemma_insert_descending(before, b@);
            assert(input.take(k + 1).drop_last() == input.take(k as int));
            assert(input.take(k + 1).last() == b@);
        }
        out.insert(pos, b);
        assert(box_models(out@) =~= before.insert(pos as int, b@));
        k += 1;
    }
    assert(input.take(boxes@.len() as int) == input);
    out
}

/// Whether one of the kept boxes removes the candidate.
pub fn is_suppressed(kept: &Vec<Bbox>, cand: &Bbox, threshold_ppm: u32) -> (hit: bool)
    ensures
        hit == suppressed_by_any(box_models(kept@), cand@, threshold_ppm as nat),
{
    let mut i: usize = 0;
    while i < kept.len()
        invariant
            i <= kept@.len(),
            forall|j: int|
                0 <= j < i ==> !suppresses(#[trigger] box_models(kept@)[j], cand@, threshold_ppm as nat),
        decreases kept@.len() - i,
    {
        if kept[i].id() == cand.id() && kept[i].iou_above(cand, threshold_ppm) {
            assert(suppresses(box_models(kept@)[i as int], cand@, threshold_ppm as nat));
            return true;
        }
        i += 1;
    }
    false
}

/// Runs class-aware non-maximum suppression: the boxes are taken by
/// descending confidence, ties in the order given, and a box is kept unless a
/// kept box of its class overlaps it by more than `threshold_ppm` millionths.
pub fn nms(boxes: &Vec<Bbox>, threshold_ppm: u32) -> (out: Vec<Bbox>)
    ensures
        box_models(out@) == suppressed(box_models(boxes@), threshold_ppm as nat),
        out@.len() <= boxes@.len(),
{
    let ordered: Vec<Bbox> = sort_by_confidence(boxes);
    let ghost om = box_models(ordered@);
    let mut kept: Vec<Bbox> = Vec::new();
    let mut k: usize = 0;
    assert(box_models(kept@) =~= greedy(om, 0, threshold_ppm as nat));
    while k < ordered.len()
        invariant
            k <= ordered@.len(),
            om == box_models(ordered@),
            kept@.len() <= k,
            box_models(kept@) == greedy(om, k as nat, threshold_ppm as nat),
        decreases ordered@.len() - k,
    {
        let cand: Bbox = ordered[k];
        let ghost before = box_models(kept@);
        if !is_suppressed(&kept, &cand, threshold_ppm) {
            kept.push(cand);
            assert(box_models(kept@) =~= before.push(cand@));
        }
        k += 1;
    }
    kept
}

} // verus!
