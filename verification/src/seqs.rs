use vstd::prelude::*;

verus! {

/// The distinct elements of `s`, each where it first occurs.
pub open spec fn distinct_in_order(s: Seq<i32>) -> Seq<i32>
    decreases s.len(),
{
    if s.len() == 0 {
        seq![]
    } else {
        let rest = distinct_in_order(s.drop_last());
        if rest.contains(s.last()) {
            rest
        } else {
            rest.push(s.last())
        }
    }
}

/// Whether `id` occurs in `ids`.
pub fn contains_id(ids: &Vec<i32>, id: i32) -> (found: bool)
    ensures
        found == ids@.contains(id),
{
    let mut i: usize = 0;
    while i < ids.len()
        invariant
            i <= ids.len(),
            forall|j: int| 0 <= j < i ==> ids@[j] != id,
        decreases ids.len() - i,
    {
        if ids[i] == id {
            return true;
        }
        i = i + 1;
    }
    false
}

/// The distinct elements of `s`, each where it first occurs.
pub fn distinct_ids(s: &Vec<i32>) -> (d: Vec<i32>)
    ensures
        d@ == distinct_in_order(s@),
{
    let mut d: Vec<i32> = Vec::new();
    let mut i: usize = 0;
    while i < s.len()
        invariant
            i <= s.len(),
            d@ == distinct_in_order(s@.take(i as int)),
        decreases s.len() - i,
    {
        assert(s@.take(i as int + 1).drop_last() == s@.take(i as int));
        if !contains_id(&d, s[i]) {
            d.push(s[i]);
        }
        i = i + 1;
    }
    assert(s@.take(s.len() as int) == s@);
    d
}

/// An element of a non-empty sequence is its last element or one of the others.
pub proof fn lemma_contains_split(s: Seq<i32>, x: i32)
    requires
        s.len() > 0,
    ensures
        s.contains(x) <==> (s.drop_last().contains(x) || x == s.last()),
{
    if s.contains(x) && x != s.last() {
        let k = choose|k: int| 0 <= k < s.len() && s[k] == x;
        assert(k != s.len() - 1);
        assert(s.drop_last()[k] == x);
    }
    if s.drop_last().contains(x) {
        let k = choose|k: int| 0 <= k < s.drop_last().len() && s.drop_last()[k] == x;
        assert(s[k] == x);
    }
    if x == s.last() {
        assert(s[s.len() - 1] == x);
    }
}

/// The distinct elements of a sequence hold no element twice, and are exactly its elements.
pub proof fn lemma_distinct_in_order_no_duplicates(s: Seq<i32>)
    ensures
        distinct_in_order(s).no_duplicates(),
        forall|x: i32| distinct_in_order(s).contains(x) <==> s.contains(x),
    decreases s.len(),
{
    if s.len() > 0 {
        lemma_distinct_in_order_no_duplicates(s.drop_last());
        let rest = distinct_in_order(s.drop_last());
        let d = distinct_in_order(s);
        assert forall|x: i32| d.contains(x) <==> s.contains(x) by {
            lemma_contains_split(s, x);
            if !rest.contains(s.last()) {
                lemma_contains_split(d, x);
                assert(d.drop_last() =~= rest);
            }
        }
        if !rest.contains(s.last()) {
            assert forall|i: int, j: int| 0 <= i < d.len() && 0 <= j < d.len() && i != j implies d[i] != d[j] by {
                if i < rest.len() && j < rest.len() {
                    assert(d[i] == rest[i] && d[j] == rest[j]);
                } else if i < rest.len() {
                    assert(d[i] == rest[i]);
                } else {
                    assert(d[j] == rest[j]);
                }
            }
        }
    }
}


/// Each distinct element stands where it first occurs: of two elements of the
/// result, the earlier one occurs in `s` before any occurrence of the later one.
pub proof fn lemma_distinct_in_order_first_occurrence(s: Seq<i32>)
    ensures
        forall|i: int, j: int, k: int|
            #![trigger distinct_in_order(s)[i], distinct_in_order(s)[j], s[k]]
            0 <= i < j < distinct_in_order(s).len() && 0 <= k < s.len() && s[k] == distinct_in_order(s)[j]
                ==> s.take(k).contains(distinct_in_order(s)[i]),
    decreases s.len(),
{
    if s.len() > 0 {
        let init = s.drop_last();
        lemma_distinct_in_order_first_occurrence(init);
        lemma_distinct_in_order_no_duplicates(init);
        let rest = distinct_in_order(init);
        assert forall|i: int, j: int, k: int|
            #![trigger distinct_in_order(s)[i], distinct_in_order(s)[j], s[k]]
            0 <= i < j < distinct_in_order(s).len() && 0 <= k < s.len() && s[k] == distinct_in_order(s)[j]
            implies s.take(k).contains(distinct_in_order(s)[i]) by {
            let d = distinct_in_order(s);
            assert(d[i] == rest[i]);
            assert(rest.contains(rest[i]));
            assert(init.contains(d[i]));
            if k < s.len() - 1 {
                assert(init[k] == s[k]);
                if j < rest.len() {
                    assert(d[j] == rest[j]);
                    assert(init.take(k).contains(rest[i]));
                    let m = choose|m: int| 0 <= m < k && init.take(k)[m] == rest[i];
                    assert(s.take(k)[m] == d[i]);
                } else {
                    assert(d[j] == s.last());
                    assert(!rest.contains(s.last()));
                    assert(init.contains(s[k]));
                }
            } else {
                let m0 = choose|m: int| 0 <= m < init.len() && init[m] == d[i];
                assert(s.take(k)[m0] == d[i]);
            }
        }
    }
}

/// The first element of a non-empty sequence comes first among its distinct elements.
pub proof fn lemma_distinct_in_order_starts_with_first(s: Seq<i32>)
    requires
        s.len() > 0,
    ensures
        distinct_in_order(s).len() > 0,
        distinct_in_order(s)[0] == s[0],
    decreases s.len(),
{
    if s.len() == 1 {
        assert(s.drop_last() =~= Seq::<i32>::empty());
        assert(distinct_in_order(s.drop_last()) =~= Seq::<i32>::empty());
    } else {
        lemma_distinct_in_order_starts_with_first(s.drop_last());
    }
}

} // verus!
