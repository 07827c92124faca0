//! Sets over a finite universe `0..n` stored as rows of booleans, and name
//! lookups in lists of strings.
use vstd::prelude::*;

verus! {

/// The number of set cells of a row.
pub open spec fn count_true(v: Seq<bool>) -> nat
    decreases v.len(),
{
    if v.len() == 0 {
        0
    } else {
        count_true(v.drop_last()) + if v.last() {
            1nat
        } else {
            0nat
        }
    }
}

/// The number of set cells over all rows.
pub open spec fn total_true(rows: Seq<Vec<bool>>) -> nat
    decreases rows.len(),
{
    if rows.len() == 0 {
        0
    } else {
        total_true(rows.drop_last()) + count_true(rows.last()@)
    }
}

pub proof fn lemma_count_true_bound(v: Seq<bool>)
    ensures
        count_true(v) <= v.len(),
    decreases v.len(),
{
    if v.len() > 0 {
        lemma_count_true_bound(v.drop_last());
    }
}

pub proof fn lemma_count_true_set(v: Seq<bool>, i: int)
    requires
        0 <= i < v.len(),
        !v[i],
    ensures
        count_true(v.update(i, true)) == count_true(v) + 1,
    decreases v.len(),
{
    let w = v.update(i, true);
    if i == v.len() - 1 {
        assert(w.drop_last() =~= v.drop_last());
    } else {
        assert(w.drop_last() =~= v.drop_last().update(i, true));
        lemma_count_true_set(v.drop_last(), i);
    }
}

pub proof fn lemma_total_update(rows: Seq<Vec<bool>>, r: int, row: Vec<bool>)
    requires
        0 <= r < rows.len(),
    ensures
        total_true(rows.update(r, row)) + count_true(rows[r]@) == total_true(rows) + count_true(row@),
    decreases rows.len(),
{
    let u = rows.update(r, row);
    if r == rows.len() - 1 {
        assert(u.drop_last() =~= rows.drop_last());
    } else {
        assert(u.drop_last() =~= rows.drop_last().update(r, row));
        lemma_total_update(rows.drop_last(), r, row);
    }
}

pub proof fn lemma_total_bound(rows: Seq<Vec<bool>>, w: nat)
    requires
        forall|r: int| 0 <= r < rows.len() ==> (#[trigger] rows[r])@.len() == w,
    ensures
        total_true(rows) <= rows.len() * w,
    decreases rows.len(),
{
    if rows.len() > 0 {
        lemma_total_bound(rows.drop_last(), w);
        lemma_count_true_bound(rows.last()@);
        assert(rows.len() * w == (rows.len() - 1) * w + w) by (nonlinear_arith);
    }
}

/// The first index of `x` in `v`.
pub open spec fn index_of(v: Seq<String>, x: Seq<char>) -> Option<int>
    decreases v.len(),
{
    if v.len() == 0 {
        None
    } else {
        match index_of(v.drop_last(), x) {
            Some(i) => Some(i),
            None => if v.last()@ == x {
                Some(v.len() - 1)
            } else {
                None
            },
        }
    }
}

pub proof fn lemma_index_of(v: Seq<String>, x: Seq<char>)
    ensures
        index_of(v, x) matches Some(i) ==> 0 <= i < v.len() && v[i]@ == x && forall|j: int| 0 <= j < i ==> #[trigger] v[j]@ != x,
        index_of(v, x) is None ==> forall|j: int| 0 <= j < v.len() ==> #[trigger] v[j]@ != x,
    decreases v.len(),
{
    if v.len() > 0 {
        lemma_index_of(v.drop_last(), x);
        assert forall|j: int| 0 <= j < v.len() - 1 implies #[trigger] v[j] == v.drop_last()[j] by {}
    }
}

/// The first index of `x` in `v`.
pub fn find_index(v: &Vec<String>, x: &String) -> (r: Option<usize>)
    ensures
        r matches Some(i) ==> index_of(v@, x@) == Some(i as int),
        r is None ==> index_of(v@, x@) is None,
{
    proof {
        lemma_index_of(v@, x@);
    }
    let mut i: usize = 0;
    while i < v.len()
        invariant
            i <= v@.len(),
            forall|j: int| 0 <= j < i ==> #[trigger] v@[j]@ != x@,
            index_of(v@, x@) matches Some(k) ==> 0 <= k < v@.len() && v@[k]@ == x@ && forall|j: int| 0 <= j < k ==> #[trigger] v@[j]@ != x@,
            index_of(v@, x@) is None ==> forall|j: int| 0 <= j < v@.len() ==> #[trigger] v@[j]@ != x@,
        decreases v.len() - i,
    {
        if v[i] == *x {
            return Some(i);
        }
        i = i + 1;
    }
    None
}

/// A row of `n` cells, all false.
pub fn false_row(n: usize) -> (r: Vec<bool>)
    ensures
        r@.len() == n,
        forall|i: int| 0 <= i < n ==> !#[trigger] r@[i],
        count_true(r@) == 0,
{
    let mut r: Vec<bool> = Vec::new();
    let mut k: usize = 0;
    while k < n
        invariant
            k <= n,
            r@.len() == k,
            forall|i: int| 0 <= i < k ==> !#[trigger] r@[i],
            count_true(r@) == 0,
        decreases n - k,
    {
        let ghost old_r = r@;
        r.push(false);
        proof {
            assert(r@.drop_last() =~= old_r);
        }
        k = k + 1;
    }
    r
}

} // verus!
