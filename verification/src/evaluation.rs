//! Scoring of predictions: an output vector counts as correct when its
//! arg-max is the arg-max of the target vector it was meant to match.

use crate::mnist::{lemma_target_marks_label, target_of, CLASSES};
use crate::utils::{argmax, first_max, is_first_max, lemma_first_max_unique, EmptyInputError};
use vstd::prelude::*;

verus! {

/// The class that the output selects is the class that the target marks.
pub open spec fn agrees(output: Seq<u64>, target: Seq<u64>) -> bool {
    first_max(output) == first_max(target)
}

/// Some output or some target among `pairs` has no element.
pub open spec fn has_empty(pairs: Seq<(Seq<u64>, Seq<u64>)>) -> bool {
    exists|i: int|
        0 <= i < pairs.len() && ((#[trigger] pairs[i]).0.len() == 0 || pairs[i].1.len() == 0)
}

/// The number of pairs of an output and a target that agree.
pub open spec fn count_agreeing(pairs: Seq<(Seq<u64>, Seq<u64>)>) -> nat
    decreases pairs.len(),
{
    if pairs.len() == 0 {
        0
    } else {
        let before = count_agreeing(pairs.drop_last());
        if agrees(pairs.last().0, pairs.last().1) {
            before + 1
        } else {
            before
        }
    }
}

/// No more pairs agree than there are.
pub proof fn lemma_count_agreeing_bounded(pairs: Seq<(Seq<u64>, Seq<u64>)>)
    ensures
        count_agreeing(pairs) <= pairs.len(),
    decreases pairs.len(),
{
    if pairs.len() > 0 {
        lemma_count_agreeing_bounded(pairs.drop_last());
    }
}

/// Against the target vector of a class, an output agrees exactly when its
/// arg-max is that class.
pub proof fn lemma_agrees_with_label(output: Seq<u64>, label: int)
    requires
        0 <= label < CLASSES,
    ensures
        agrees(output, target_of(label)) <==> first_max(output) == label,
{
    lemma_target_marks_label(label);
    lemma_first_max_unique(target_of(label), label, first_max(target_of(label)));
}

/// Whether the output selects the class that the target marks.
pub fn prediction_matches(output: &[u64], target: &[u64]) -> (r: Result<bool, EmptyInputError>)
    ensures
        output@.len() == 0 || target@.len() == 0 ==> r == Err::<bool, EmptyInputError>(
            EmptyInputError,
        ),
        output@.len() > 0 && target@.len() > 0 ==> r == Ok::<bool, EmptyInputError>(
            agrees(output@, target@),
        ),
{
    let predicted: usize = match argmax(output) {
        Ok(i) => i,
        Err(e) => {
            return Err(e);
        },
    };
    let actual: usize = match argmax(target) {
        Ok(i) => i,
        Err(e) => {
            return Err(e);
        },
    };
    Ok(predicted == actual)
}

/// Counts the pairs of an output and its target that agree. No count is
/// given when an arg-max is asked of a vector without elements.
pub fn count_correct(pairs: &Vec<(Vec<u64>, Vec<u64>)>) -> (r: Result<usize, EmptyInputError>)
    ensures
        has_empty(pairs.deep_view()) ==> r == Err::<usize, EmptyInputError>(EmptyInputError),
        !has_empty(pairs.deep_view()) ==> r == Ok::<usize, EmptyInputError>(
            count_agreeing(pairs.deep_view()) as usize,
        ),
{
    let ghost all = pairs.deep_view();
    let n: usize = pairs.len();
    let mut correct: usize = 0;
    let mut i: usize = 0;
    while i < n
        invariant
            i <= n,
            n == pairs@.len(),
            all == pairs.deep_view(),
            correct == count_agreeing(all.take(i as int)),
            correct <= i,
            forall|k: int| 0 <= k < i ==> (#[trigger] all[k]).0.len() > 0 && all[k].1.len() > 0,
        decreases n - i,
    {
        let pair = &pairs[i];
        proof {
            assert(all[i as int] == pairs@[i as int].deep_view());
            assert(all[i as int].0 =~= pair.0@);
            assert(all[i as int].1 =~= pair.1@);
            assert(all.take(i + 1).drop_last() == all.take(i as int));
        }
        match prediction_matches(pair.0.as_slice(), pair.1.as_slice()) {
            Ok(same) => {
                if same {
                    correct += 1;
                }
            },
            Err(e) => {
                return Err(e);
            },
        }
        i += 1;
    }
    proof {
        assert(all.take(n as int) == all);
    }
    Ok(correct)
}

} // verus!
