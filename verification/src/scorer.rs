//! Scoring of a byte sequence by its likeness to English prose.

use vstd::prelude::*;

verus! {

/// Why a byte sequence could not be scored.
#[derive(Clone, Copy, Debug, PartialEq, Eq, Structural)]
pub enum ScoreError {
    /// The sequence holds no byte, so it has no mean weight.
    EmptyInput,
}

/// Whether `b` is one of the lower-case letters `e t a o i n`, the most
/// frequent in English.
pub open spec fn is_frequent_letter(b: u8) -> bool {
    ||| b == 0x65  // e
    ||| b == 0x74  // t
    ||| b == 0x61  // a
    ||| b == 0x6f  // o
    ||| b == 0x69  // i
    ||| b == 0x6e  // n

}

/// What one byte contributes to the score of a text: 20 for the six most
/// frequent letters `e t a o i n`, 10 for any other lower-case letter, nothing
/// for a space, and a penalty of 10 for everything else.
pub open spec fn byte_weight(b: u8) -> int {
    if is_frequent_letter(b) {
        20
    } else if 0x61 <= b <= 0x7a {
        // a to z
        10
    } else if b == 0x20 {
        // space
        0
    } else {
        -10
    }
}

/// The sum of the weights of all bytes of `text`.
pub open spec fn total_weight(text: Seq<u8>) -> int
    decreases text.len(),
{
    if text.len() == 0 {
        0
    } else {
        total_weight(text.drop_last()) + byte_weight(text.last())
    }
}

/// The quotient of `total` by `count`, rounded towards zero.
pub open spec fn quotient_towards_zero(total: int, count: int) -> int
    recommends
        count > 0,
{
    if total >= 0 {
        total / count
    } else {
        -((-total) / count)
    }
}

/// The mean weight per byte of `text`, rounded towards zero.
pub open spec fn mean_score(text: Seq<u8>) -> int
    recommends
        text.len() > 0,
{
    quotient_towards_zero(total_weight(text), text.len() as int)
}

/// The weight of a text lies between what it would be if every byte drew the
/// penalty and what it would be if every byte were a frequent letter.
pub proof fn lemma_total_weight_bounds(text: Seq<u8>)
    ensures
        -10 * text.len() <= total_weight(text) <= 20 * text.len(),
    decreases text.len(),
{
    if text.len() > 0 {
        lemma_total_weight_bounds(text.drop_last());
    }
}

/// The weight of a concatenation is the sum of the weights of its parts.
pub proof fn lemma_total_weight_concat(left: Seq<u8>, right: Seq<u8>)
    ensures
        total_weight(left + right) == total_weight(left) + total_weight(right),
    decreases right.len(),
{
    if right.len() > 0 {
        lemma_total_weight_concat(left, right.drop_last());
        assert((left + right).drop_last() =~= left + right.drop_last());
    }
}

/// The score of a text that holds at least one byte lies between -10 and 20.
pub proof fn lemma_mean_score_bounds(text: Seq<u8>)
    requires
        text.len() > 0,
    ensures
        -10 <= mean_score(text) <= 20,
{
    lemma_total_weight_bounds(text);
    let total = total_weight(text);
    let count = text.len() as int;
    if total >= 0 {
        assert(0 <= total / count <= 20) by (nonlinear_arith)
            requires
                0 <= total <= 20 * count,
                count > 0,
        ;
    } else {
        assert(0 <= (-total) / count <= 10) by (nonlinear_arith)
            requires
                0 <= -total <= 10 * count,
                count > 0,
        ;
    }
}

/// Writing a text twice in a row leaves its score unchanged: the weight and
/// the length both double, which leaves their quotient as it was.
pub proof fn lemma_score_of_doubled_text(text: Seq<u8>)
    ensures
        mean_score(text + text) == mean_score(text),
{
    if text.len() > 0 {
        lemma_total_weight_concat(text, text);
        let total = total_weight(text);
        let count = text.len() as int;
        if total >= 0 {
            assert((2 * total) / (2 * count) == total / count) by (nonlinear_arith)
                requires
                    total >= 0,
                    count > 0,
            ;
        } else {
            let gap = -total;
            assert((2 * gap) / (2 * count) == gap / count) by (nonlinear_arith)
                requires
                    gap >= 0,
                    count > 0,
            ;
        }
    }
}

/// A text made of spaces only weighs nothing.
pub proof fn lemma_total_weight_of_spaces(text: Seq<u8>)
    requires
        forall|i: int| 0 <= i < text.len() ==> text[i] == 0x20,
    ensures
        total_weight(text) == 0,
    decreases text.len(),
{
    if text.len() > 0 {
        lemma_total_weight_of_spaces(text.drop_last());
    }
}

/// A text made of one or more spaces, and of nothing else, scores 0.
pub proof fn lemma_score_of_spaces(text: Seq<u8>)
    requires
        text.len() > 0,
        forall|i: int| 0 <= i < text.len() ==> text[i] == 0x20,
    ensures
        mean_score(text) == 0,
{
    lemma_total_weight_of_spaces(text);
    let count = text.len() as int;
    assert(0int / count == 0) by (nonlinear_arith)
        requires
            count > 0,
    ;
}

fn weigh(b: u8) -> (weight: i8)
    ensures
        weight == byte_weight(b),
{
    match b {
        0x65 | 0x74 | 0x61 | 0x6f | 0x69 | 0x6e => 20,
        0x61..=0x7a => 10,
        0x20 => 0,
        _ => -10,
    }
}

/// Scores a text on its similarity to English using letter frequencies: the
/// mean weight of its bytes, rounded towards zero.
///
/// A text without bytes has no mean and is rejected.
pub fn score_text(text: Vec<u8>) -> (result: Result<i32, ScoreError>)
    ensures
        match result {
            Ok(score) => text@.len() > 0 && score == mean_score(text@),
            Err(error) => text@.len() == 0 && error == ScoreError::EmptyInput,
        },
{
    let n: usize = text.len();
    if n == 0 {
        return Err(ScoreError::EmptyInput);
    }
    let mut total: i128 = 0;
    let mut i: usize = 0;
    while i < n
        invariant
            n == text@.len(),
            i <= n,
            total == total_weight(text@.take(i as int)),
            -10 * i <= total <= 20 * i,
        decreases n - i,
    {
        proof {
            assert(text@.take(i + 1).drop_last() =~= text@.take(i as int));
        }
        total = total + weigh(text[i]) as i128;
        i += 1;
    }
    proof {
        assert(text@.take(n as int) =~= text@);
        lemma_mean_score_bounds(text@);
    }
    let count: u128 = n as u128;
    if total >= 0 {
        let mean: u128 = (total as u128) / count;
        Ok(mean as i32)
    } else {
        let mean: u128 = ((-total) as u128) / count;
        Ok(-(mean as i32))
    }
}

} // verus!
