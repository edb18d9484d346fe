//! Longest common subsequence length, computed with two rolling rows.
use vstd::prelude::*;

verus! {

/// Length of the longest common subsequence of `a` and `b`, by the classic
/// recurrence on the last characters of both sequences. That this is the
/// greatest length of a common subsequence is `lemma_lcs_is_longest`.
pub open spec fn lcs(a: Seq<char>, b: Seq<char>) -> nat
    decreases a.len() + b.len(),
{
    if a.len() == 0 || b.len() == 0 {
        0
    } else if a.last() == b.last() {
        lcs(a.drop_last(), b.drop_last()) + 1
    } else {
        let x = lcs(a.drop_last(), b);
        let y = lcs(a, b.drop_last());
        if x >= y {
            x
        } else {
            y
        }
    }
}

/// A common subsequence is never longer than either sequence.
pub proof fn lemma_lcs_bounded(a: Seq<char>, b: Seq<char>)
    ensures
        lcs(a, b) <= a.len(),
        lcs(a, b) <= b.len(),
    decreases a.len() + b.len(),
{
    if a.len() > 0 && b.len() > 0 {
        lemma_lcs_bounded(a.drop_last(), b.drop_last());
        lemma_lcs_bounded(a.drop_last(), b);
        lemma_lcs_bounded(a, b.drop_last());
    }
}

/// The length of the longest common subsequence does not depend on the
/// order of the two sequences.
pub proof fn lemma_lcs_symmetric(a: Seq<char>, b: Seq<char>)
    ensures
        lcs(a, b) == lcs(b, a),
    decreases a.len() + b.len(),
{
    if a.len() > 0 && b.len() > 0 {
        lemma_lcs_symmetric(a.drop_last(), b.drop_last());
        lemma_lcs_symmetric(a.drop_last(), b);
        lemma_lcs_symmetric(a, b.drop_last());
    }
}

/// The longest common subsequence of two sequences has the length of the
/// longer one exactly when the two sequences are equal.
pub proof fn lemma_lcs_full_iff_equal(a: Seq<char>, b: Seq<char>)
    ensures
        (lcs(a, b) == a.len() && lcs(a, b) == b.len()) <==> a == b,
        lcs(a, b) == (if a.len() >= b.len() { a.len() } else { b.len() }) <==> a == b,
    decreases a.len() + b.len(),
{
    lemma_lcs_bounded(a, b);
    if a.len() > 0 && b.len() > 0 {
        lemma_lcs_full_iff_equal(a.drop_last(), b.drop_last());
        lemma_lcs_bounded(a.drop_last(), b);
        lemma_lcs_bounded(a, b.drop_last());
        if a == b {
            assert(a.drop_last() == b.drop_last());
        }
        if a.last() == b.last() && a.drop_last() == b.drop_last() {
            assert(a =~= a.drop_last().push(a.last()));
            assert(b =~= b.drop_last().push(b.last()));
        }
    } else if a.len() == 0 && b.len() == 0 {
        assert(a =~= b);
    }
}

/// Two sequences have a non-empty common subsequence exactly when some
/// character occurs in both.
pub proof fn lemma_lcs_zero_iff_disjoint(a: Seq<char>, b: Seq<char>)
    ensures
        lcs(a, b) == 0 <==> (forall|i: int, j: int|
            0 <= i < a.len() && 0 <= j < b.len() ==> a[i] != b[j]),
    decreases a.len() + b.len(),
{
    if a.len() > 0 && b.len() > 0 {
        lemma_lcs_zero_iff_disjoint(a.drop_last(), b.drop_last());
        lemma_lcs_zero_iff_disjoint(a.drop_last(), b);
        lemma_lcs_zero_iff_disjoint(a, b.drop_last());
        if lcs(a, b) == 0 {
            assert forall|i: int, j: int|
                0 <= i < a.len() && 0 <= j < b.len() implies a[i] != b[j] by {
                if i < a.len() - 1 {
                    assert(a.drop_last()[i] == a[i]);
                } else if j < b.len() - 1 {
                    assert(b.drop_last()[j] == b[j]);
                }
            }
        } else {
            if a.last() != b.last() {
                if lcs(a.drop_last(), b) > 0 {
                    let (i, j) = choose|i: int, j: int|
                        0 <= i < a.len() - 1 && 0 <= j < b.len() && a.drop_last()[i] == b[j];
                    assert(a[i] == b[j]);
                } else {
                    let (i, j) = choose|i: int, j: int|
                        0 <= i < a.len() && 0 <= j < b.len() - 1 && a[i] == b.drop_last()[j];
                    assert(a[i] == b[j]);
                }
            } else {
                assert(a[a.len() - 1] == b[b.len() - 1]);
            }
        }
    }
}

/// `s` is a subsequence of `a`: the characters of `s` occur in `a` in the
/// same order, not necessarily next to each other. Either the last character
/// of `a` is skipped, or it stands for the last character of `s`.
pub open spec fn is_subsequence(s: Seq<char>, a: Seq<char>) -> bool
    decreases a.len(),
{
    if s.len() == 0 {
        true
    } else if a.len() == 0 {
        false
    } else {
        is_subsequence(s, a.drop_last()) || (s.last() == a.last() && is_subsequence(
            s.drop_last(),
            a.drop_last(),
        ))
    }
}

/// `s` is a subsequence of both `a` and `b`.
pub open spec fn is_common_subsequence(s: Seq<char>, a: Seq<char>, b: Seq<char>) -> bool {
    is_subsequence(s, a) && is_subsequence(s, b)
}

/// Dropping the last character of the first sequence lowers the length by
/// at most one, and never raises it.
proof fn lemma_lcs_drop_first_arg(a: Seq<char>, b: Seq<char>)
    requires
        a.len() > 0,
    ensures
        lcs(a.drop_last(), b) <= lcs(a, b),
        lcs(a, b) <= lcs(a.drop_last(), b) + 1,
    decreases a.len() + b.len(),
{
    let a1 = a.drop_last();
    if b.len() == 0 {
    } else if a1.len() == 0 {
        lemma_lcs_bounded(a, b);
    } else {
        let b1 = b.drop_last();
        lemma_lcs_drop_first_arg(b, a1);
        lemma_lcs_symmetric(b, a1);
        lemma_lcs_symmetric(b1, a1);
        if a.last() != b.last() {
            lemma_lcs_drop_first_arg(a, b1);
        }
    }
}

/// Dropping the last character of the second sequence never raises the length.
proof fn lemma_lcs_drop_second_arg(a: Seq<char>, b: Seq<char>)
    requires
        b.len() > 0,
    ensures
        lcs(a, b.drop_last()) <= lcs(a, b),
{
    lemma_lcs_drop_first_arg(b, a);
    lemma_lcs_symmetric(b, a);
    lemma_lcs_symmetric(b.drop_last(), a);
}

/// No common subsequence is longer than `lcs`.
proof fn lemma_common_subsequence_bounded(s: Seq<char>, a: Seq<char>, b: Seq<char>)
    requires
        is_common_subsequence(s, a, b),
    ensures
        s.len() <= lcs(a, b),
    decreases a.len() + b.len(),
{
    if s.len() > 0 {
        let (a1, b1) = (a.drop_last(), b.drop_last());
        if is_subsequence(s, a1) {
            lemma_common_subsequence_bounded(s, a1, b);
            lemma_lcs_drop_first_arg(a, b);
        } else if is_subsequence(s, b1) {
            lemma_common_subsequence_bounded(s, a, b1);
            lemma_lcs_drop_second_arg(a, b);
        } else {
            lemma_common_subsequence_bounded(s.drop_last(), a1, b1);
        }
    }
}

/// A longest common subsequence of `a` and `b`, built along the recurrence.
pub open spec fn lcs_witness(a: Seq<char>, b: Seq<char>) -> Seq<char>
    decreases a.len() + b.len(),
{
    if a.len() == 0 || b.len() == 0 {
        Seq::empty()
    } else if a.last() == b.last() {
        lcs_witness(a.drop_last(), b.drop_last()).push(a.last())
    } else if lcs(a.drop_last(), b) >= lcs(a, b.drop_last()) {
        lcs_witness(a.drop_last(), b)
    } else {
        lcs_witness(a, b.drop_last())
    }
}

/// The witness is a common subsequence of length `lcs`.
proof fn lemma_lcs_witness(a: Seq<char>, b: Seq<char>)
    ensures
        is_common_subsequence(lcs_witness(a, b), a, b),
        lcs_witness(a, b).len() == lcs(a, b),
    decreases a.len() + b.len(),
{
    let w = lcs_witness(a, b);
    if a.len() > 0 && b.len() > 0 {
        let (a1, b1) = (a.drop_last(), b.drop_last());
        if a.last() == b.last() {
            lemma_lcs_witness(a1, b1);
            assert(w.drop_last() =~= lcs_witness(a1, b1));
        } else if lcs(a1, b) >= lcs(a, b1) {
            lemma_lcs_witness(a1, b);
            assert(is_subsequence(w, a));
        } else {
            lemma_lcs_witness(a, b1);
            assert(is_subsequence(w, b));
        }
    }
}

/// `lcs(a, b)` is the length of a longest common subsequence: some common
/// subsequence has that length, and none is longer.
pub proof fn lemma_lcs_is_longest(a: Seq<char>, b: Seq<char>)
    ensures
        exists|s: Seq<char>| is_common_subsequence(s, a, b) && s.len() == lcs(a, b),
        forall|s: Seq<char>| is_common_subsequence(s, a, b) ==> s.len() <= lcs(a, b),
{
    lemma_lcs_witness(a, b);
    assert forall|s: Seq<char>| is_common_subsequence(s, a, b) implies s.len() <= lcs(a, b) by {
        lemma_common_subsequence_bounded(s, a, b);
    }
}

/// The characters of `s`, in order.
pub(crate) fn chars_of(s: &str) -> (r: Vec<char>)
    ensures
        r@ == s@,
{
    let mut r: Vec<char> = Vec::new();
    for c in it: s.chars()
        invariant
            r@ == it.seq().take(it.index() as int),
            it.seq() == s@,
    {
        r.push(c);
    }
    r
}

/// The characters of both strings, the one with fewer characters first.
fn get_shorter_longer_strings(left: &str, right: &str) -> (r: (Vec<char>, Vec<char>))
    ensures
        r.0@.len() <= r.1@.len(),
        (r.0@ == left@ && r.1@ == right@) || (r.0@ == right@ && r.1@ == left@),
{
    let l = chars_of(left);
    let r = chars_of(right);
    if l.len() < r.len() {
        (l, r)
    } else {
        (r, l)
    }
}

/// Fills the table of prefix lengths row by row over `outer`, keeping only
/// two rows as wide as `inner`. Column `k` of a row stands for the prefix of
/// `inner` of length `k + 1`; the column of the empty prefix is always zero
/// and is not stored.
fn lcs_rows(inner: &Vec<char>, outer: &Vec<char>) -> (r: usize)
    ensures
        r == lcs(outer@, inner@),
{
    let n = inner.len();
    let mut prev: Vec<usize> = vec![0usize; n];
    let mut cur: Vec<usize> = vec![0usize; n];
    let ghost l = inner@;
    let ghost o = outer@;
    for i in 0..outer.len()
        invariant
            l == inner@,
            o == outer@,
            n == l.len(),
            prev@.len() == n,
            cur@.len() == n,
            forall|k: int| 0 <= k < n ==> #[trigger] prev@[k] == lcs(o.take(i as int), l.take(k + 1)),
    {
        let c = outer[i];
        for j in 0..n
            invariant
                l == inner@,
                o == outer@,
                n == l.len(),
                i < o.len(),
                c == o[i as int],
                prev@.len() == n,
                cur@.len() == n,
                forall|k: int| 0 <= k < n ==> #[trigger] prev@[k] == lcs(o.take(i as int), l.take(k + 1)),
                forall|k: int| 0 <= k < j ==> #[trigger] cur@[k] == lcs(o.take(i + 1), l.take(k + 1)),
        {
            let ghost oi = o.take(i as int);
            let ghost oi1 = o.take(i + 1);
            let ghost lj = l.take(j as int);
            let ghost lj1 = l.take(j + 1);
            proof {
                assert(oi1.drop_last() =~= oi);
                assert(lj1.drop_last() =~= lj);
                assert(oi1.last() == c);
                assert(lj1.last() == l[j as int]);
                if j == 0 {
                    assert(lj.len() == 0);
                }
                assert(lcs(oi1, lj1) == if c == l[j as int] {
                    lcs(oi, lj) + 1
                } else if lcs(oi, lj1) >= lcs(oi1, lj) {
                    lcs(oi, lj1)
                } else {
                    lcs(oi1, lj)
                });
                lemma_lcs_bounded(oi, lj);
            }
            let diag: usize = if j == 0 { 0 } else { prev[j - 1] };
            let left: usize = if j == 0 { 0 } else { cur[j - 1] };
            let v: usize = if c == inner[j] {
                diag + 1
            } else if prev[j] >= left {
                prev[j]
            } else {
                left
            };
            cur.set(j, v);
        }
        std::mem::swap(&mut prev, &mut cur);
    }
    assert(o.take(o.len() as int) =~= o);
    if n == 0 {
        0
    } else {
        assert(l.take(n as int) =~= l);
        prev[n - 1]
    }
}

/// Length of the longest common subsequence of two strings, counted in
/// characters. The table is kept as wide as the shorter string.
pub fn lcs_length(left: &str, right: &str) -> (r: usize)
    ensures
        r == lcs(left@, right@),
        r <= left@.len(),
        r <= right@.len(),
        exists|s: Seq<char>| is_common_subsequence(s, left@, right@) && s.len() == r,
        forall|s: Seq<char>| is_common_subsequence(s, left@, right@) ==> s.len() <= r,
{
    let (shorter, longer) = get_shorter_longer_strings(left, right);
    let r = lcs_rows(&shorter, &longer);
    proof {
        lemma_lcs_symmetric(left@, right@);
        lemma_lcs_bounded(left@, right@);
        lemma_lcs_is_longest(left@, right@);
    }
    r
}

} // verus!
