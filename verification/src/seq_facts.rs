//! Small facts about sequences under single-element removal and insertion,
//! used to maintain the grid invariants.

use vstd::prelude::*;

verus! {

/// Removing the first occurrence of `id` from a duplicate-free sequence
/// removes exactly `id` from the membership.
pub proof fn lemma_remove_value_contains<A>(s: Seq<A>, id: A, x: A)
    requires
        s.no_duplicates(),
    ensures
        s.remove_value(id).contains(x) <==> (s.contains(x) && x != id),
{
    s.index_of_first_ensures(id);
    match s.index_of_first(id) {
        Some(idx) => {
            s.remove_ensures(idx);
            let out = s.remove(idx);
            if out.contains(x) {
                let k = choose|k: int| 0 <= k < out.len() && out[k] == x;
                if k < idx {
                    assert(s[k] == x);
                } else {
                    assert(s[k + 1] == x);
                }
            }
            if s.contains(x) && x != id {
                let j = choose|j: int| 0 <= j < s.len() && s[j] == x;
                if j < idx {
                    assert(out[j] == x);
                } else {
                    assert(out[j - 1] == x);
                }
            }
        },
        None => {
        },
    }
}

/// Removing the first occurrence of a value keeps a sequence duplicate-free.
pub proof fn lemma_remove_value_no_dup<A>(s: Seq<A>, id: A)
    requires
        s.no_duplicates(),
    ensures
        s.remove_value(id).no_duplicates(),
{
    s.index_of_first_ensures(id);
    match s.index_of_first(id) {
        Some(idx) => {
            s.remove_ensures(idx);
            let out = s.remove(idx);
            assert forall|i: int, j: int| 0 <= i < j < out.len() implies out[i] != out[j] by {
                let i0 = if i < idx {
                    i
                } else {
                    i + 1
                };
                let j0 = if j < idx {
                    j
                } else {
                    j + 1
                };
                assert(out[i] == s[i0] && out[j] == s[j0]);
            }
        },
        None => {
        },
    }
}

/// Membership after inserting `y`: the old members plus `y`.
pub proof fn lemma_insert_contains<A>(s: Seq<A>, i: int, y: A, x: A)
    requires
        0 <= i <= s.len(),
    ensures
        s.insert(i, y).contains(x) <==> (s.contains(x) || x == y),
{
    s.insert_ensures(i, y);
    let out = s.insert(i, y);
    if out.contains(x) {
        let k = choose|k: int| 0 <= k < out.len() && out[k] == x;
        if k < i {
            assert(s[k] == x);
        } else if k == i {
            assert(out[k] == y);
        } else {
            assert(s[k - 1] == x);
        }
    }
    if s.contains(x) {
        let j = choose|j: int| 0 <= j < s.len() && s[j] == x;
        if j < i {
            assert(out[j] == x);
        } else {
            assert(out[j + 1] == x);
        }
    }
    if x == y {
        assert(out[i] == y);
    }
}

/// Inserting a fresh value keeps a sequence duplicate-free.
pub proof fn lemma_insert_no_dup<A>(s: Seq<A>, i: int, y: A)
    requires
        0 <= i <= s.len(),
        s.no_duplicates(),
        !s.contains(y),
    ensures
        s.insert(i, y).no_duplicates(),
{
    s.insert_ensures(i, y);
    let out = s.insert(i, y);
    assert forall|p: int, q: int| 0 <= p < q < out.len() implies out[p] != out[q] by {
        if p == i || q == i {
            let other = if p == i {
                q
            } else {
                p
            };
            let o0 = if other < i {
                other
            } else {
                other - 1
            };
            assert(out[other] == s[o0]);
            assert(s.contains(s[o0]));
        } else {
            let p0 = if p < i {
                p
            } else {
                p - 1
            };
            let q0 = if q < i {
                q
            } else {
                q - 1
            };
            assert(out[p] == s[p0] && out[q] == s[q0]);
        }
    }
}

/// Filtering keeps a sequence whose members all satisfy the predicate.
pub proof fn lemma_filter_all<A>(s: Seq<A>, pred: spec_fn(A) -> bool)
    requires
        forall|i: int| 0 <= i < s.len() ==> pred(#[trigger] s[i]),
    ensures
        s.filter(pred) == s,
    decreases s.len(),
{
    reveal(Seq::filter);
    if s.len() > 0 {
        assert forall|i: int| 0 <= i < s.drop_last().len() implies pred(
            #[trigger] s.drop_last()[i],
        ) by {
            assert(s.drop_last()[i] == s[i]);
        }
        lemma_filter_all(s.drop_last(), pred);
        assert(s.filter(pred) =~= s);
    }
}

/// Filtering drops a sequence none of whose members satisfy the predicate.
pub proof fn lemma_filter_none<A>(s: Seq<A>, pred: spec_fn(A) -> bool)
    requires
        forall|i: int| 0 <= i < s.len() ==> !pred(#[trigger] s[i]),
    ensures
        s.filter(pred) == Seq::<A>::empty(),
    decreases s.len(),
{
    reveal(Seq::filter);
    if s.len() > 0 {
        assert forall|i: int| 0 <= i < s.drop_last().len() implies !pred(
            #[trigger] s.drop_last()[i],
        ) by {
            assert(s.drop_last()[i] == s[i]);
        }
        lemma_filter_none(s.drop_last(), pred);
    } else {
        assert(s =~= Seq::<A>::empty());
    }
}

} // verus!
