use vstd::prelude::*;

verus! {

/// Number of `true` entries among the first `k` elements of `s`.
pub(crate) open spec fn count_true(s: Seq<bool>, k: int) -> nat
    decreases k,
{
    if k <= 0 {
        0
    } else {
        count_true(s, k - 1) + (if s[k - 1] {
            1nat
        } else {
            0nat
        })
    }
}

/// A sequence of `false` entries has no `true` entries.
pub(crate) proof fn lemma_count_true_all_false(s: Seq<bool>, k: int)
    requires
        forall|j: int| 0 <= j < k ==> !s[j],
    ensures
        count_true(s, k) == 0,
    decreases k,
{
    if k > 0 {
        lemma_count_true_all_false(s, k - 1);
    }
}

/// Setting one `false` entry to `true` raises the count of the prefixes
/// that contain it by exactly one.
pub(crate) proof fn lemma_count_true_update(s: Seq<bool>, i: int, k: int)
    requires
        0 <= i < s.len(),
        k <= s.len(),
        !s[i],
    ensures
        count_true(s.update(i, true), k) == count_true(s, k) + (if i < k {
            1int
        } else {
            0int
        }),
    decreases k,
{
    if k > 0 {
        lemma_count_true_update(s, i, k - 1);
    }
}

/// At most `k` of the first `k` entries are `true`.
pub(crate) proof fn lemma_count_true_bound(s: Seq<bool>, k: int)
    ensures
        count_true(s, k) <= (if k >= 0 {
            k
        } else {
            0
        }),
    decreases k,
{
    if k > 0 {
        lemma_count_true_bound(s, k - 1);
    }
}

/// The set of ids below `n` is finite and has exactly `n` elements.
pub(crate) proof fn lemma_id_range_finite(n: usize)
    ensures
        Set::new(|i: usize| i < n).finite(),
        Set::new(|i: usize| i < n).len() == n,
    decreases n,
{
    if n == 0 {
        assert(Set::new(|i: usize| i < n) =~= Set::<usize>::empty());
    } else {
        lemma_id_range_finite((n - 1) as usize);
        assert(Set::new(|i: usize| i < n) =~= Set::new(|i: usize| i < (n - 1) as usize).insert(
            (n - 1) as usize,
        ));
    }
}

/// Membership in a sequence extended by one element.
pub(crate) proof fn lemma_push_contains<T>(s: Seq<T>, x: T, y: T)
    ensures
        s.push(x).contains(y) <==> (s.contains(y) || y == x),
{
    let p = s.push(x);
    if p.contains(y) {
        let j = choose|j: int| 0 <= j < p.len() && p[j] == y;
        if j < s.len() {
            assert(s[j] == y);
        }
    }
    if s.contains(y) {
        let j = choose|j: int| 0 <= j < s.len() && s[j] == y;
        assert(p[j] == y);
    }
    if y == x {
        assert(p[s.len() as int] == y);
    }
}

/// Extending a duplicate-free sequence by a fresh element keeps it
/// duplicate-free.
pub(crate) proof fn lemma_push_no_dup<T>(s: Seq<T>, x: T)
    requires
        s.no_duplicates(),
        !s.contains(x),
    ensures
        s.push(x).no_duplicates(),
{
    let p = s.push(x);
    assert forall|i: int, j: int| 0 <= i < j < p.len() implies p[i] != p[j] by {
        if j == s.len() {
            if s[i] == x {
                assert(s.contains(x));
            }
        }
    }
}

/// Combined form: membership and freedom from duplicates after a push.
pub(crate) proof fn lemma_push_contains_all(s: Seq<usize>, x: usize)
    requires
        s.no_duplicates(),
        !s.contains(x),
    ensures
        s.push(x).no_duplicates(),
        forall|y: usize| s.push(x).contains(y) == (s.contains(y) || y == x),
{
    lemma_push_no_dup(s, x);
    assert forall|y: usize| s.push(x).contains(y) == (s.contains(y) || y == x) by {
        lemma_push_contains(s, x, y);
    }
}

/// In a sequence without duplicates, `index_of` returns the only index of
/// its element.
pub(crate) proof fn lemma_index_of_unique(s: Seq<usize>, i: int)
    requires
        s.no_duplicates(),
        0 <= i < s.len(),
    ensures
        s.index_of(s[i]) == i,
{
    assert(s.contains(s[i]));
}

/// A sequence without duplicates whose entry at `i` is `x` loses exactly
/// its one occurrence of `x` when that entry is removed.
pub(crate) proof fn lemma_remove_no_dup(s: Seq<usize>, i: int)
    requires
        s.no_duplicates(),
        0 <= i < s.len(),
    ensures
        s.remove(i).no_duplicates(),
        !s.remove(i).contains(s[i]),
        forall|y: usize| y != s[i] ==> s.remove(i).contains(y) == s.contains(y),
{
    let r = s.remove(i);
    assert forall|y: usize| y != s[i] implies r.contains(y) == s.contains(y) by {
        if s.contains(y) {
            let j = choose|j: int| 0 <= j < s.len() && s[j] == y;
            if j < i {
                assert(r[j] == y);
            } else {
                assert(r[j - 1] == y);
            }
        }
        if r.contains(y) {
            let j = choose|j: int| 0 <= j < r.len() && r[j] == y;
            if j < i {
                assert(s[j] == y);
            } else {
                assert(s[j + 1] == y);
            }
        }
    }
    assert(!r.contains(s[i])) by {
        if r.contains(s[i]) {
            let j = choose|j: int| 0 <= j < r.len() && r[j] == s[i];
            if j < i {
                assert(s[j] == s[i]);
            } else {
                assert(s[j + 1] == s[i]);
            }
        }
    }
}

} // verus!
