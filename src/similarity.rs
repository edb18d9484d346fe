//! Similarity scores and the ranking of candidate strings against a target.
use vstd::prelude::*;

use crate::lcs::{
    chars_of, lcs, lcs_length, lemma_lcs_bounded, lemma_lcs_full_iff_equal, lemma_lcs_symmetric,
    lemma_lcs_zero_iff_disjoint,
};

verus! {

/// A similarity score held exactly as the fraction `numerator / denominator`.
///
/// For two strings it is the length of their longest common subsequence over
/// the character count of the longer one; two empty strings score `1 / 1`.
#[derive(Clone, Copy, Debug, PartialEq, Eq, Structural)]
pub struct Similarity {
    pub numerator: usize,
    pub denominator: usize,
}

/// The larger of two character counts.
pub open spec fn longer_len(a: Seq<char>, b: Seq<char>) -> nat {
    if a.len() >= b.len() {
        a.len()
    } else {
        b.len()
    }
}

/// The score of `a` against `b`.
pub open spec fn similarity(a: Seq<char>, b: Seq<char>) -> Similarity {
    if a.len() == 0 && b.len() == 0 {
        Similarity { numerator: 1, denominator: 1 }
    } else {
        Similarity { numerator: lcs(a, b) as usize, denominator: longer_len(a, b) as usize }
    }
}

impl Similarity {
    /// A score in the range from zero to one with a positive denominator.
    pub open spec fn valid(self) -> bool {
        1 <= self.denominator && self.numerator <= self.denominator
    }

    /// The score is one.
    pub open spec fn is_one(self) -> bool {
        self.numerator == self.denominator
    }

    /// The score is zero.
    pub open spec fn is_zero(self) -> bool {
        self.numerator == 0
    }

    /// `self` is a strictly greater fraction than `other`.
    pub open spec fn greater(self, other: Similarity) -> bool {
        self.numerator * other.denominator > other.numerator * self.denominator
    }

    /// Compares the two fractions exactly, by cross multiplication.
    pub fn is_greater_than(&self, other: &Similarity) -> (r: bool)
        ensures
            r == self.greater(*other),
    {
        let (x, y, z, w) = (
            self.numerator as u128,
            other.denominator as u128,
            other.numerator as u128,
            self.denominator as u128,
        );
        assert(x * y <= u64::MAX * u64::MAX) by (nonlinear_arith)
            requires
                x <= u64::MAX,
                y <= u64::MAX,
        ;
        assert(z * w <= u64::MAX * u64::MAX) by (nonlinear_arith)
            requires
                z <= u64::MAX,
                w <= u64::MAX,
        ;
        let a = x * y;
        let b = z * w;
        a > b
    }
}

/// The only way a ranking can fail.
#[derive(Clone, Copy, Debug, PartialEq, Eq, Structural)]
pub enum RankError {
    /// There were no candidates to choose from.
    EmptyOptions,
}

/// Candidate `k` has the greatest score against `target`, and every
/// candidate before it scores strictly less.
pub open spec fn is_first_best(target: Seq<char>, options: Seq<&str>, k: int) -> bool {
    &&& 0 <= k < options.len()
    &&& forall|j: int|
        0 <= j < options.len() ==> !#[trigger] similarity(options[j]@, target).greater(
            similarity(options[k]@, target),
        )
    &&& forall|j: int|
        0 <= j < k ==> similarity(options[k]@, target).greater(
            #[trigger] similarity(options[j]@, target),
        )
}

/// Exact order of fractions: when `z` is above `y` and `x` is not, `z` is above `x`.
proof fn lemma_greater_through(x: Similarity, y: Similarity, z: Similarity)
    requires
        x.denominator > 0,
        y.denominator > 0,
        z.denominator > 0,
        z.greater(y),
        !x.greater(y),
    ensures
        z.greater(x),
        !x.greater(z),
{
    let (xn, xd, yn, yd, zn, zd) = (
        x.numerator as int,
        x.denominator as int,
        y.numerator as int,
        y.denominator as int,
        z.numerator as int,
        z.denominator as int,
    );
    assert(zn * xd > xn * zd) by (nonlinear_arith)
        requires
            xd > 0,
            yd > 0,
            zd > 0,
            zn * yd > yn * zd,
            xn * yd <= yn * xd,
    {
        assert(zn * yd * xd > yn * zd * xd);
        assert(xn * yd * zd <= yn * xd * zd);
        assert(yd * (zn * xd) > yd * (xn * zd));
    }
}

/// Score of `left` against `right`: the length of their longest common
/// subsequence over the character count of the longer string, and one when
/// both are empty.
pub fn compare_similarity(left: &str, right: &str) -> (r: Similarity)
    ensures
        r == similarity(left@, right@),
        r.valid(),
{
    let l = chars_of(left);
    let rc = chars_of(right);
    let common = lcs_length(left, right);
    let (ll, rl) = (l.len(), rc.len());
    proof {
        lemma_similarity_bounds(left@, right@);
    }
    if ll == 0 && rl == 0 {
        Similarity { numerator: 1, denominator: 1 }
    } else {
        let longest = if ll >= rl { ll } else { rl };
        Similarity { numerator: common, denominator: longest }
    }
}

/// The candidate that is most similar to `target`, with its score. Of
/// candidates with equal scores the first one wins; no candidates is an error.
pub fn find_best_similarity(target: &str, options: &[&str]) -> (r: Result<
    (String, Similarity),
    RankError,
>)
    ensures
        options@.len() == 0 <==> r is Err,
        r is Err ==> r == Err::<(String, Similarity), RankError>(RankError::EmptyOptions),
        r is Ok ==> exists|k: int|
            #[trigger] is_first_best(target@, options@, k) && r->Ok_0.0@ == options@[k]@
                && r->Ok_0.1 == similarity(options@[k]@, target@),
{
    if options.len() == 0 {
        return Err(RankError::EmptyOptions);
    }
    let mut best: usize = 0;
    let mut best_score = compare_similarity(options[0], target);
    for i in 1..options.len()
        invariant
            0 <= best < i <= options@.len(),
            best_score == similarity(options@[best as int]@, target@),
            best_score.valid(),
            forall|j: int| 0 <= j < i ==> #[trigger] similarity(options@[j]@, target@).valid(),
            forall|j: int|
                0 <= j < i ==> !#[trigger] similarity(options@[j]@, target@).greater(best_score),
            forall|j: int|
                0 <= j < best ==> best_score.greater(#[trigger] similarity(options@[j]@, target@)),
    {
        let score = compare_similarity(options[i], target);
        if score.is_greater_than(&best_score) {
            proof {
                assert forall|j: int| 0 <= j < i implies {
                    &&& !(#[trigger] similarity(options@[j]@, target@)).greater(score)
                    &&& score.greater(similarity(options@[j]@, target@))
                } by {
                    let x = similarity(options@[j]@, target@);
                    assert(x.valid());
                    lemma_greater_through(similarity(options@[j]@, target@), best_score, score);
                }
            }
            best = i;
            best_score = score;
        }
    }
    let matched = options[best].to_owned();
    assert(is_first_best(target@, options@, best as int));
    Ok((matched, best_score))
}

/// The score of every candidate against `target`, in the candidates' order.
pub fn get_similarity_ratings(target: &str, options: &[&str]) -> (r: Vec<Similarity>)
    ensures
        r@.len() == options@.len(),
        forall|i: int| 0 <= i < r@.len() ==> r@[i] == similarity(options@[i]@, target@),
{
    let mut result: Vec<Similarity> = Vec::new();
    for i in 0..options.len()
        invariant
            result@.len() == i,
            forall|k: int| 0 <= k < i ==> result@[k] == similarity(options@[k]@, target@),
    {
        let score = compare_similarity(options[i], target);
        result.push(score);
    }
    result
}

/// Every score lies between zero and one, with a positive denominator.
pub proof fn lemma_similarity_bounds(a: Seq<char>, b: Seq<char>)
    requires
        a.len() <= usize::MAX,
        b.len() <= usize::MAX,
    ensures
        similarity(a, b).valid(),
{
    lemma_lcs_bounded(a, b);
}

/// Scoring `a` against `b` gives the same score as `b` against `a`.
pub proof fn lemma_similarity_symmetric(a: Seq<char>, b: Seq<char>)
    ensures
        similarity(a, b) == similarity(b, a),
{
    lemma_lcs_symmetric(a, b);
}

/// Every string scores one against itself, the empty string included.
pub proof fn lemma_similarity_identity(s: Seq<char>)
    requires
        s.len() <= usize::MAX,
    ensures
        similarity(s, s).is_one(),
{
    lemma_lcs_full_iff_equal(s, s);
}

/// Two strings score one exactly when they hold the same characters in the
/// same order.
pub proof fn lemma_similarity_one_iff_equal(a: Seq<char>, b: Seq<char>)
    requires
        a.len() <= usize::MAX,
        b.len() <= usize::MAX,
    ensures
        similarity(a, b).is_one() <==> a == b,
{
    lemma_lcs_full_iff_equal(a, b);
    lemma_lcs_bounded(a, b);
    if a.len() == 0 && b.len() == 0 {
        assert(a =~= b);
    }
}

/// Two strings, not both empty, score zero exactly when no character occurs
/// in both.
pub proof fn lemma_similarity_zero_iff_disjoint(a: Seq<char>, b: Seq<char>)
    requires
        a.len() <= usize::MAX,
        b.len() <= usize::MAX,
        a.len() > 0 || b.len() > 0,
    ensures
        similarity(a, b).is_zero() <==> (forall|i: int, j: int|
            0 <= i < a.len() && 0 <= j < b.len() ==> a[i] != b[j]),
{
    lemma_lcs_zero_iff_disjoint(a, b);
    lemma_lcs_bounded(a, b);
}

/// At most one candidate is the first with the greatest score, so the
/// best match is determined by the target and the candidates' order.
pub proof fn lemma_first_best_unique(target: Seq<char>, options: Seq<&str>, k1: int, k2: int)
    requires
        is_first_best(target, options, k1),
        is_first_best(target, options, k2),
    ensures
        k1 == k2,
{
    if k1 < k2 {
        assert(!similarity(options[k2]@, target).greater(similarity(options[k1]@, target)));
    } else if k2 < k1 {
        assert(!similarity(options[k1]@, target).greater(similarity(options[k2]@, target)));
    }
}

} // verus!
