use vstd::prelude::*;

verus! {

/// Each element is smaller than the next one: no duplicates, ascending order.
pub open spec fn strictly_increasing(s: Seq<i32>) -> bool {
    forall|a: int, b: int| 0 <= a < b < s.len() ==> s[a] < s[b]
}

/// `after` is what inserting `v` into the ordered set `before` gives: the
/// ascending sequence of the elements of `before` and `v`, and `before`
/// itself where `v` was already there.
pub open spec fn insert_step(before: Seq<i32>, after: Seq<i32>, v: i32) -> bool {
    &&& strictly_increasing(after)
    &&& forall|x: i32| #[trigger] after.contains(x) <==> (before.contains(x) || x == v)
    &&& before.contains(v) ==> after == before
}

/// Inserting an element at any position adds exactly that element to the
/// elements present.
pub proof fn lemma_insert_contains(s: Seq<i32>, at: int, v: i32)
    requires
        0 <= at <= s.len(),
    ensures
        forall|x: i32| #[trigger] s.insert(at, v).contains(x) <==> (s.contains(x) || x == v),
{
    let t = s.insert(at, v);
    assert forall|x: i32| #[trigger] t.contains(x) implies s.contains(x) || x == v by {
        let k = choose|k: int| 0 <= k < t.len() && t[k] == x;
        if k < at {
            assert(s[k] == x);
        } else if k > at {
            assert(s[k - 1] == x);
        }
    }
    assert forall|x: i32| s.contains(x) || x == v implies #[trigger] t.contains(x) by {
        if x == v {
            assert(t[at] == v);
        } else {
            let k = choose|k: int| 0 <= k < s.len() && s[k] == x;
            if k < at {
                assert(t[k] == x);
            } else {
                assert(t[k + 1] == x);
            }
        }
    }
}

/// In a strictly increasing sequence, an element lies below `v` exactly when
/// its position is at most the last position holding an element below `v`.
pub proof fn lemma_split(s: Seq<i32>, p: int, v: i32)
    requires
        strictly_increasing(s),
        -1 <= p < s.len(),
        p >= 0 ==> s[p] < v,
        p + 1 < s.len() ==> s[p + 1] >= v,
    ensures
        forall|k: int| 0 <= k <= p ==> s[k] < v,
        forall|k: int| p + 1 < k < s.len() ==> s[k] > v,
        s.contains(v) <==> (p + 1 < s.len() && s[p + 1] == v),
{
    if s.contains(v) {
        let k = choose|k: int| 0 <= k < s.len() && s[k] == v;
        if k <= p {
            assert(s[k] <= s[p]);
        } else if k > p + 1 {
            assert(s[p + 1] < s[k]);
        }
    }
    if p + 1 < s.len() && s[p + 1] == v {
        assert(s.contains(v));
    }
}

/// Inserting `v` just after the last element below `v` keeps a strictly
/// increasing sequence strictly increasing, provided `v` was absent.
pub proof fn lemma_insert_sorted(s: Seq<i32>, p: int, v: i32)
    requires
        strictly_increasing(s),
        -1 <= p < s.len(),
        p >= 0 ==> s[p] < v,
        p + 1 < s.len() ==> s[p + 1] > v,
    ensures
        strictly_increasing(s.insert(p + 1, v)),
{
    lemma_split(s, p, v);
    let t = s.insert(p + 1, v);
    assert forall|a: int, b: int| 0 <= a < b < t.len() implies t[a] < t[b] by {
        if b <= p {
        } else if b == p + 1 {
            assert(t[a] == s[a]);
        } else if a == p + 1 {
            assert(t[b] == s[b - 1]);
        } else if a <= p {
            assert(t[b] == s[b - 1]);
        } else {
        }
    }
}

/// After inserting the values of `vals` one by one into the empty set, the
/// elements are exactly the values that were inserted.
proof fn lemma_prefix_members(views: Seq<Seq<i32>>, vals: Seq<i32>, k: int)
    requires
        views.len() == vals.len() + 1,
        views[0] == Seq::<i32>::empty(),
        forall|t: int| 0 <= t < vals.len() ==> #[trigger] insert_step(views[t], views[t + 1], vals[t]),
        0 <= k <= vals.len(),
    ensures
        forall|x: i32| #[trigger] views[k].contains(x) <==> vals.subrange(0, k).contains(x),
    decreases k,
{
    if k > 0 {
        lemma_prefix_members(views, vals, k - 1);
        let t = k - 1;
        assert(insert_step(views[t], views[t + 1], vals[t]));
        let before = vals.subrange(0, k - 1);
        assert(vals.subrange(0, k) == before.insert(before.len() as int, vals[k - 1]));
        lemma_insert_contains(before, before.len() as int, vals[k - 1]);
    }
}

/// Membership follows insertion: starting from the empty set and inserting
/// the values of `vals` in order (`views[k]` is the set after `k` inserts),
/// each value is present right after it is inserted, and in the end a value
/// is present exactly when it was inserted.
pub proof fn members_are_inserted_values(views: Seq<Seq<i32>>, vals: Seq<i32>)
    requires
        views.len() == vals.len() + 1,
        views[0] == Seq::<i32>::empty(),
        forall|t: int| 0 <= t < vals.len() ==> #[trigger] insert_step(views[t], views[t + 1], vals[t]),
    ensures
        forall|t: int| 0 <= t < vals.len() ==> #[trigger] views[t + 1].contains(vals[t]),
        forall|u: i32| views.last().contains(u) <==> vals.contains(u),
{
    assert forall|t: int| 0 <= t < vals.len() implies #[trigger] views[t + 1].contains(vals[t]) by {
        assert(insert_step(views[t], views[t + 1], vals[t]));
    }
    lemma_prefix_members(views, vals, vals.len() as int);
    assert(vals.subrange(0, vals.len() as int) == vals);
}

/// Inserting a value a second time changes nothing: the sequence, and so the
/// number of elements, stay what the first insert gave.
pub proof fn insert_twice(s0: Seq<i32>, s1: Seq<i32>, s2: Seq<i32>, v: i32)
    requires
        insert_step(s0, s1, v),
        insert_step(s1, s2, v),
    ensures
        s2 == s1,
        s2.len() == s1.len(),
{
    assert(s1.contains(v));
}

} // verus!
