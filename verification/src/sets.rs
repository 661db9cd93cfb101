//! Characteristic bit vectors over a finite universe, with the counting
//! lemmas that make monotone fixed-point loops terminate: a strictly grown
//! (or shrunk) row strictly moves the total count.

use vstd::prelude::*;

verus! {

/// The number of set bits.
pub open spec fn count_true(s: Seq<bool>) -> int
    decreases s.len(),
{
    if s.len() == 0 {
        0
    } else {
        count_true(s.drop_last()) + if s.last() {
            1int
        } else {
            0int
        }
    }
}

/// The total number of unset bits over all rows.
pub open spec fn total_missing(ss: Seq<Seq<bool>>) -> int
    decreases ss.len(),
{
    if ss.len() == 0 {
        0
    } else {
        total_missing(ss.drop_last()) + (ss.last().len() - count_true(ss.last()))
    }
}

/// The set of indices whose bit is set.
pub open spec fn set_of(s: Seq<bool>) -> Set<int> {
    Set::new(|i: int| 0 <= i < s.len() && s[i])
}

pub proof fn lemma_count_true_bounds(s: Seq<bool>)
    ensures
        0 <= count_true(s) <= s.len(),
    decreases s.len(),
{
    if s.len() > 0 {
        lemma_count_true_bounds(s.drop_last());
    }
}

/// A pointwise-larger row has at least as many set bits.
pub proof fn lemma_count_true_le(a: Seq<bool>, b: Seq<bool>)
    requires
        a.len() == b.len(),
        forall|i: int| 0 <= i < a.len() && a[i] ==> b[i],
    ensures
        count_true(a) <= count_true(b),
    decreases a.len(),
{
    if a.len() > 0 {
        assert(forall|i: int|
            0 <= i < a.drop_last().len() && a.drop_last()[i] ==> b.drop_last()[i]);
        lemma_count_true_le(a.drop_last(), b.drop_last());
    }
}

/// A pointwise-larger row with one strictly new bit has strictly more set
/// bits.
pub proof fn lemma_count_true_lt(a: Seq<bool>, b: Seq<bool>, w: int)
    requires
        a.len() == b.len(),
        forall|i: int| 0 <= i < a.len() && a[i] ==> b[i],
        0 <= w < a.len(),
        !a[w],
        b[w],
    ensures
        count_true(a) < count_true(b),
    decreases a.len(),
{
    if a.len() > 0 {
        assert(forall|i: int|
            0 <= i < a.drop_last().len() && a.drop_last()[i] ==> b.drop_last()[i]);
        if w == a.len() - 1 {
            lemma_count_true_le(a.drop_last(), b.drop_last());
        } else {
            lemma_count_true_lt(a.drop_last(), b.drop_last(), w);
        }
    }
}

pub proof fn lemma_total_missing_nonneg(ss: Seq<Seq<bool>>)
    ensures
        total_missing(ss) >= 0,
    decreases ss.len(),
{
    if ss.len() > 0 {
        lemma_total_missing_nonneg(ss.drop_last());
        lemma_count_true_bounds(ss.last());
    }
}

/// Replacing one row changes the total by the difference of its missing
/// counts.
pub proof fn lemma_total_missing_update(ss: Seq<Seq<bool>>, b: int, row: Seq<bool>)
    requires
        0 <= b < ss.len(),
    ensures
        total_missing(ss.update(b, row)) == total_missing(ss) + (row.len() - count_true(row)) - (
        ss[b].len() - count_true(ss[b])),
    decreases ss.len(),
{
    let upd = ss.update(b, row);
    if b == ss.len() - 1 {
        assert(upd.drop_last() =~= ss.drop_last());
        assert(upd.last() == row);
    } else {
        assert(upd.drop_last() =~= ss.drop_last().update(b, row));
        assert(upd.last() == ss.last());
        lemma_total_missing_update(ss.drop_last(), b, row);
    }
}

/// A fresh all-false row of length `m`.
pub(crate) fn false_row(m: usize) -> (r: Vec<bool>)
    ensures
        r@.len() == m,
        forall|k: int| 0 <= k < m ==> !r@[k],
{
    let mut r: Vec<bool> = Vec::new();
    let mut k: usize = 0;
    while k < m
        invariant
            k <= m,
            r@.len() == k,
            forall|j: int| 0 <= j < k ==> !r@[j],
        decreases m - k,
    {
        r.push(false);
        k += 1;
    }
    r
}

/// A copy of a bit row.
pub(crate) fn copy_bools(v: &Vec<bool>) -> (r: Vec<bool>)
    ensures
        r@ == v@,
{
    let mut r: Vec<bool> = Vec::new();
    let n = v.len();
    let mut k: usize = 0;
    while k < n
        invariant
            k <= n,
            n == v.len(),
            r@ =~= v@.subrange(0, k as int),
        decreases n - k,
    {
        r.push(v[k]);
        proof {
            assert(r@ =~= v@.subrange(0, k as int + 1));
        }
        k += 1;
    }
    proof {
        assert(v@.subrange(0, n as int) =~= v@);
    }
    r
}

/// Whether two bit rows are identical.
pub(crate) fn bools_eq(a: &Vec<bool>, b: &Vec<bool>) -> (r: bool)
    ensures
        r == (a@ == b@),
{
    if a.len() != b.len() {
        return false;
    }
    let n = a.len();
    let mut k: usize = 0;
    while k < n
        invariant
            k <= n,
            n == a.len() == b.len(),
            forall|j: int| 0 <= j < k ==> a@[j] == b@[j],
        decreases n - k,
    {
        if a[k] != b[k] {
            return false;
        }
        k += 1;
    }
    proof {
        assert(a@ =~= b@);
    }
    true
}

/// Whether a worklist holds an index.
pub(crate) fn usize_vec_contains(v: &Vec<usize>, x: usize) -> (r: bool)
    ensures
        r == v@.contains(x),
{
    let n = v.len();
    let mut k: usize = 0;
    while k < n
        invariant
            k <= n,
            n == v.len(),
            forall|j: int| 0 <= j < k ==> v@[j] != x,
        decreases n - k,
    {
        if v[k] == x {
            return true;
        }
        k += 1;
    }
    false
}


/// A row of bits viewed deeply is just its plain view.
pub broadcast proof fn lemma_bool_row_view(v: Vec<bool>)
    ensures
        #[trigger] v.deep_view() == v@,
{
    assert(v.deep_view() =~= v@);
}


/// The total number of set bits over all rows.
pub open spec fn total_count(ss: Seq<Seq<bool>>) -> int
    decreases ss.len(),
{
    if ss.len() == 0 {
        0
    } else {
        total_count(ss.drop_last()) + count_true(ss.last())
    }
}

pub proof fn lemma_total_count_nonneg(ss: Seq<Seq<bool>>)
    ensures
        total_count(ss) >= 0,
    decreases ss.len(),
{
    if ss.len() > 0 {
        lemma_total_count_nonneg(ss.drop_last());
        lemma_count_true_bounds(ss.last());
    }
}

/// Replacing one row changes the total by the difference of its counts.
pub proof fn lemma_total_count_update(ss: Seq<Seq<bool>>, b: int, row: Seq<bool>)
    requires
        0 <= b < ss.len(),
    ensures
        total_count(ss.update(b, row)) == total_count(ss) + count_true(row) - count_true(ss[b]),
    decreases ss.len(),
{
    let upd = ss.update(b, row);
    if b == ss.len() - 1 {
        assert(upd.drop_last() =~= ss.drop_last());
        assert(upd.last() == row);
    } else {
        assert(upd.drop_last() =~= ss.drop_last().update(b, row));
        assert(upd.last() == ss.last());
        lemma_total_count_update(ss.drop_last(), b, row);
    }
}

} // verus!
