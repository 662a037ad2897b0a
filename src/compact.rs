use vstd::prelude::*;

verus! {

/// The elements of `s` that are not zero, in their order in `s`.
pub open spec fn nonzero(s: Seq<i32>) -> Seq<i32> {
    s.filter(|x: i32| x != 0)
}

/// Creates a new vector holding the non-zero elements of `array`, in the order
/// in which they stand there.
pub fn compact(array: Vec<i32>) -> (r: Vec<i32>)
    ensures
        r@ == nonzero(array@),
{
    let mut new_array: Vec<i32> = Vec::new();
    let mut i: usize = 0;
    while i < array.len()
        invariant
            i <= array.len(),
            new_array@ == nonzero(array@.take(i as int)),
        decreases array.len() - i,
    {
        proof {
            let t = array@.take(i as int + 1);
            assert(t.drop_last() =~= array@.take(i as int));
            reveal(Seq::filter);
        }
        let x = array[i];
        if x != 0 {
            new_array.push(x);
        }
        i = i + 1;
    }
    assert(array@.take(array.len() as int) =~= array@);
    new_array
}

/// `s` has no zero element.
pub open spec fn has_no_zero(s: Seq<i32>) -> bool {
    forall|i: int| 0 <= i < s.len() ==> s[i] != 0
}

/// `idx` picks, in increasing order, indices of `s` whose elements make up `r`,
/// and every non-zero element of `s` is picked.
pub open spec fn keeps_nonzero_in_order(s: Seq<i32>, r: Seq<i32>, idx: Seq<int>) -> bool {
    &&& idx.len() == r.len()
    &&& forall|j: int| 0 <= j < idx.len() ==> 0 <= #[trigger] idx[j] < s.len() && s[idx[j]] == r[j]
    &&& forall|j: int, k: int| 0 <= j < k < idx.len() ==> #[trigger] idx[j] < #[trigger] idx[k]
    &&& forall|m: int| 0 <= m < s.len() && #[trigger] s[m] != 0 ==> exists|j: int|
        0 <= j < idx.len() && #[trigger] idx[j] == m
}

/// Compacting a sequence leaves no zero in it.
pub proof fn lemma_compact_has_no_zero(s: Seq<i32>)
    ensures
        has_no_zero(nonzero(s)),
    decreases s.len(),
{
    reveal(Seq::filter);
    if s.len() > 0 {
        lemma_compact_has_no_zero(s.drop_last());
    }
}

/// Compacting a sequence never lengthens it, and keeps its length exactly when
/// the sequence has no zero.
pub proof fn lemma_compact_len(s: Seq<i32>)
    ensures
        nonzero(s).len() <= s.len(),
        nonzero(s).len() == s.len() <==> has_no_zero(s),
    decreases s.len(),
{
    reveal(Seq::filter);
    if s.len() > 0 {
        let p = s.drop_last();
        lemma_compact_len(p);
        if has_no_zero(s) {
            assert(has_no_zero(p)) by {
                assert forall|i: int| 0 <= i < p.len() implies p[i] != 0 by {
                    assert(p[i] == s[i]);
                }
            }
        }
        if has_no_zero(p) && s.last() != 0 {
            assert forall|i: int| 0 <= i < s.len() implies s[i] != 0 by {
                if i < p.len() {
                    assert(p[i] == s[i]);
                }
            }
        }
    }
}

/// Compacting a sequence keeps each of its non-zero elements, and keeps them in
/// their relative order: the returned `idx` gives, for each element of the
/// result, the strictly increasing position in `s` that it comes from.
pub proof fn lemma_compact_keeps_order(s: Seq<i32>) -> (idx: Seq<int>)
    ensures
        keeps_nonzero_in_order(s, nonzero(s), idx),
    decreases s.len(),
{
    reveal(Seq::filter);
    if s.len() == 0 {
        Seq::empty()
    } else {
        let p = s.drop_last();
        let pi = lemma_compact_keeps_order(p);
        let n = s.len() - 1;
        if s.last() != 0 {
            let idx = pi.push(n);
            let r = nonzero(s);
            assert forall|j: int| 0 <= j < idx.len() implies 0 <= #[trigger] idx[j] < s.len()
                && s[idx[j]] == r[j] by {
                if j < pi.len() {
                    assert(idx[j] == pi[j]);
                    assert(p[pi[j]] == s[pi[j]]);
                }
            }
            assert forall|j: int, k: int| 0 <= j < k < idx.len() implies #[trigger] idx[j]
                < #[trigger] idx[k] by {
                assert(idx[j] == pi[j]);
                if k < pi.len() {
                    assert(idx[k] == pi[k]);
                }
            }
            assert forall|m: int| 0 <= m < s.len() && #[trigger] s[m] != 0 implies exists|j: int|
                0 <= j < idx.len() && #[trigger] idx[j] == m by {
                if m == n {
                    assert(idx[pi.len() as int] == m);
                } else {
                    assert(p[m] == s[m]);
                    let j = choose|j: int| 0 <= j < pi.len() && #[trigger] pi[j] == m;
                    assert(idx[j] == pi[j]);
                }
            }
            idx
        } else {
            assert forall|j: int| 0 <= j < pi.len() implies 0 <= #[trigger] pi[j] < s.len()
                && s[pi[j]] == nonzero(s)[j] by {
                assert(p[pi[j]] == s[pi[j]]);
            }
            assert forall|m: int| 0 <= m < s.len() && #[trigger] s[m] != 0 implies exists|j: int|
                0 <= j < pi.len() && #[trigger] pi[j] == m by {
                assert(p[m] == s[m]);
            }
            pi
        }
    }
}

} // verus!
