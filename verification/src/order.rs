use vstd::prelude::*;
use vstd::seq_lib::*;
use vstd::relations::*;

verus! {

/// The sequence is in ascending order (equal neighbours allowed).
pub open spec fn is_sorted(s: Seq<i64>) -> bool {
    forall|i: int, j: int| 0 <= i <= j < s.len() ==> s[i] <= s[j]
}

/// `r` holds exactly the elements of `s`, each as often as `s` does, in
/// ascending order.
pub open spec fn is_ascending_of(r: Seq<i64>, s: Seq<i64>) -> bool {
    is_sorted(r) && r.to_multiset() == s.to_multiset()
}

/// `s` with `v` placed before the first element that is greater than `v`.
pub open spec fn insert_ascending(s: Seq<i64>, v: i64) -> Seq<i64>
    decreases s.len(),
{
    if s.len() == 0 {
        seq![v]
    } else if s.last() <= v {
        s.push(v)
    } else {
        insert_ascending(s.drop_last(), v).push(s.last())
    }
}

/// The elements of `s` in ascending order.
pub open spec fn ascending(s: Seq<i64>) -> Seq<i64>
    decreases s.len(),
{
    if s.len() == 0 {
        Seq::<i64>::empty()
    } else {
        insert_ascending(ascending(s.drop_last()), s.last())
    }
}

/// Inserting into a sorted sequence keeps it sorted and adds one occurrence
/// of the inserted value.
pub proof fn lemma_insert_ascending(s: Seq<i64>, v: i64)
    requires
        is_sorted(s),
    ensures
        is_sorted(insert_ascending(s, v)),
        insert_ascending(s, v).to_multiset() == s.to_multiset().insert(v),
        insert_ascending(s, v).len() == s.len() + 1,
    decreases s.len(),
{
    broadcast use group_to_multiset_ensures;

    let r = insert_ascending(s, v);
    if s.len() == 0 {
        assert(s =~= Seq::<i64>::empty());
        assert(r =~= s.push(v));
    } else if s.last() <= v {
        assert(is_sorted(r)) by {
            assert forall|i: int, j: int| 0 <= i <= j < r.len() implies r[i] <= r[j] by {
                if j == s.len() && i < s.len() {
                    assert(s[i] <= s[s.len() - 1]);
                }
            }
        }
    } else {
        let head = s.drop_last();
        let last = s.last();
        assert(is_sorted(head));
        lemma_insert_ascending(head, v);
        let inner = insert_ascending(head, v);
        assert(s =~= head.push(last));
        assert(r.to_multiset() =~= s.to_multiset().insert(v));
        // Every element of `inner` is an element of `head` or is `v`, and all
        // of those are at most `last`.
        assert forall|i: int| 0 <= i < inner.len() implies #[trigger] inner[i] <= last by {
            assert(inner.to_multiset().count(inner[i]) > 0);
            if inner[i] != v {
                assert(head.to_multiset().count(inner[i]) > 0);
                assert(head.contains(inner[i]));
                let k = choose|k: int| 0 <= k < head.len() && head[k] == inner[i];
                assert(s[k] <= s[s.len() - 1]);
            }
        }
        assert(is_sorted(r)) by {
            assert forall|i: int, j: int| 0 <= i <= j < r.len() implies r[i] <= r[j] by {
                if j < inner.len() {
                    assert(inner[i] <= inner[j]);
                } else if i < inner.len() {
                    assert(inner[i] <= last);
                }
            }
        }
    }
}

/// `ascending(s)` is sorted and is a rearrangement of `s`.
pub proof fn lemma_ascending_is_sorted_rearrangement(s: Seq<i64>)
    ensures
        is_ascending_of(ascending(s), s),
        ascending(s).len() == s.len(),
    decreases s.len(),
{
    broadcast use group_to_multiset_ensures;

    if s.len() == 0 {
        assert(ascending(s) =~= s);
    } else {
        lemma_ascending_is_sorted_rearrangement(s.drop_last());
        lemma_insert_ascending(ascending(s.drop_last()), s.last());
        assert(s =~= s.drop_last().push(s.last()));
    }
}

/// A sequence has one ascending rearrangement only: two sorted sequences
/// with the same elements are equal.
pub proof fn lemma_sorted_rearrangement_unique(a: Seq<i64>, b: Seq<i64>)
    requires
        is_sorted(a),
        is_sorted(b),
        a.to_multiset() == b.to_multiset(),
    ensures
        a == b,
{
    let leq = |x: i64, y: i64| x <= y;
    assert(total_ordering(leq));
    assert(sorted_by(a, leq));
    assert(sorted_by(b, leq));
    lemma_sorted_unique(a, b, leq);
}

/// Whatever is sorted and rearranges `s` is `ascending(s)`.
pub proof fn lemma_ascending_characterized(r: Seq<i64>, s: Seq<i64>)
    requires
        is_ascending_of(r, s),
    ensures
        r == ascending(s),
{
    lemma_ascending_is_sorted_rearrangement(s);
    lemma_sorted_rearrangement_unique(r, ascending(s));
}

/// Sorting neither adds nor drops a value, and the first and last elements
/// of the result are the least and the greatest value.
pub proof fn lemma_ascending_members(s: Seq<i64>)
    ensures
        forall|v: i64| ascending(s).contains(v) <==> s.contains(v),
        forall|i: int|
            0 <= i < s.len() ==> ascending(s)[0] <= #[trigger] s[i] <= ascending(s).last(),
{
    broadcast use group_to_multiset_ensures;

    lemma_ascending_is_sorted_rearrangement(s);
    let a = ascending(s);
    assert forall|v: i64| a.contains(v) <==> s.contains(v) by {
        assert(a.to_multiset().count(v) == s.to_multiset().count(v));
    }
    assert forall|i: int| 0 <= i < s.len() implies a[0] <= #[trigger] s[i] <= a.last() by {
        assert(s.contains(s[i]));
        assert(a.contains(s[i]));
        let k = choose|k: int| 0 <= k < a.len() && a[k] == s[i];
        assert(a[0] <= a[k]);
        assert(a[k] <= a[a.len() - 1]);
    }
}

/// A value that stands at two places of a sequence occurs at least twice
/// in its multiset, and a value that occurs twice stands at two places.
pub proof fn lemma_twice_in_multiset(s: Seq<i64>, v: i64)
    ensures
        s.to_multiset().count(v) >= 2 <==> exists|i: int, j: int|
            0 <= i < j < s.len() && s[i] == v && s[j] == v,
{
    broadcast use group_to_multiset_ensures;

    if exists|i: int, j: int| 0 <= i < j < s.len() && s[i] == v && s[j] == v {
        let (i, j) = choose|i: int, j: int| 0 <= i < j < s.len() && s[i] == v && s[j] == v;
        let rest = s.remove(i);
        assert(rest[j - 1] == v);
        assert(rest.contains(v));
        assert(rest.to_multiset().count(v) >= 1);
        assert(rest.to_multiset() == s.to_multiset().remove(v));
    }
    if s.to_multiset().count(v) >= 2 {
        assert(s.contains(v));
        let i = choose|i: int| 0 <= i < s.len() && s[i] == v;
        let rest = s.remove(i);
        assert(rest.to_multiset() == s.to_multiset().remove(v));
        assert(rest.to_multiset().count(v) >= 1);
        assert(rest.contains(v));
        let k = choose|k: int| 0 <= k < rest.len() && rest[k] == v;
        if k < i {
            assert(s[k] == v);
            assert(0 <= k < i < s.len() && s[k] == v && s[i] == v);
        } else {
            assert(s[k + 1] == v);
            assert(0 <= i < k + 1 < s.len() && s[i] == v && s[k + 1] == v);
        }
    }
}

/// Sorting a sequence without repeated values gives a strictly ascending
/// sequence.
pub proof fn lemma_ascending_strict(s: Seq<i64>)
    requires
        s.no_duplicates(),
    ensures
        forall|i: int, j: int| 0 <= i < j < s.len() ==> ascending(s)[i] < ascending(s)[j],
{
    lemma_ascending_is_sorted_rearrangement(s);
    let a = ascending(s);
    assert forall|i: int, j: int| 0 <= i < j < s.len() implies a[i] < a[j] by {
        assert(a[i] <= a[j]);
        if a[i] == a[j] {
            let v = a[i];
            lemma_twice_in_multiset(a, v);
            lemma_twice_in_multiset(s, v);
            let (p, q) = choose|p: int, q: int| 0 <= p < q < s.len() && s[p] == v && s[q] == v;
            assert(s[p] != s[q]);
        }
    }
}

/// Merges two sorted vectors into one sorted vector.
fn merge_sorted(a: &Vec<i64>, b: &Vec<i64>) -> (r: Vec<i64>)
    requires
        is_sorted(a@),
        is_sorted(b@),
    ensures
        is_sorted(r@),
        r@.to_multiset() == (a@ + b@).to_multiset(),
        r@.len() == a@.len() + b@.len(),
{
    broadcast use group_to_multiset_ensures;

    let mut out: Vec<i64> = Vec::new();
    let mut i: usize = 0;
    let mut j: usize = 0;
    let n: usize = a.len();
    let m: usize = b.len();
    assert(a@.take(0) + b@.take(0) =~= Seq::<i64>::empty());
    while i < n || j < m
        invariant
            n == a.len(),
            m == b.len(),
            i <= n,
            j <= m,
            is_sorted(a@),
            is_sorted(b@),
            is_sorted(out@),
            out@.len() == i + j,
            out@.to_multiset() == (a@.take(i as int) + b@.take(j as int)).to_multiset(),
            forall|k: int| 0 <= k < out@.len() && i < n ==> out@[k] <= a@[i as int],
            forall|k: int| 0 <= k < out@.len() && j < m ==> out@[k] <= b@[j as int],
        decreases (n - i) + (m - j),
    {
        let ghost before = out@;
        let take_a: bool = if i < n {
            if j < m {
                a[i] <= b[j]
            } else {
                true
            }
        } else {
            false
        };
        if take_a {
            let v: i64 = a[i];
            out.push(v);
            proof {
                lemma_merge_step_left(a@, b@, i as int, j as int);
                assert(out@ =~= before.push(v));
                to_multiset_build(before, v);
                assert(is_sorted(out@)) by {
                    assert forall|p: int, q: int| 0 <= p <= q < out@.len() implies out@[p]
                        <= out@[q] by {
                        if q < before.len() {
                            assert(before[p] <= before[q]);
                        } else if p < before.len() {
                            assert(before[p] <= a@[i as int]);
                        }
                    }
                }
                assert forall|k: int| 0 <= k < out@.len() && i + 1 < n implies out@[k] <= a@[i + 1] by {
                    assert(a@[i as int] <= a@[i + 1]);
                }
            }
            i = i + 1;
        } else {
            let v: i64 = b[j];
            out.push(v);
            proof {
                lemma_merge_step_right(a@, b@, i as int, j as int);
                assert(out@ =~= before.push(v));
                to_multiset_build(before, v);
                assert(is_sorted(out@)) by {
                    assert forall|p: int, q: int| 0 <= p <= q < out@.len() implies out@[p]
                        <= out@[q] by {
                        if q < before.len() {
                            assert(before[p] <= before[q]);
                        } else if p < before.len() {
                            assert(before[p] <= b@[j as int]);
                        }
                    }
                }
                assert forall|k: int| 0 <= k < out@.len() && j + 1 < m implies out@[k] <= b@[j + 1] by {
                    assert(b@[j as int] <= b@[j + 1]);
                }
            }
            j = j + 1;
        }
    }
    assert(a@.take(n as int) =~= a@);
    assert(b@.take(m as int) =~= b@);
    out
}

/// Taking one more element from the left input adds it to the merged
/// multiset.
proof fn lemma_merge_step_left(a: Seq<i64>, b: Seq<i64>, i: int, j: int)
    requires
        0 <= i < a.len(),
        0 <= j <= b.len(),
    ensures
        (a.take(i + 1) + b.take(j)).to_multiset() == (a.take(i) + b.take(j)).to_multiset().insert(
            a[i],
        ),
{
    broadcast use group_to_multiset_ensures;

    let joined = a.take(i) + b.take(j);
    assert(a.take(i + 1) + b.take(j) =~= joined.insert(i, a[i]));
}

/// Taking one more element from the right input adds it to the merged
/// multiset.
proof fn lemma_merge_step_right(a: Seq<i64>, b: Seq<i64>, i: int, j: int)
    requires
        0 <= i <= a.len(),
        0 <= j < b.len(),
    ensures
        (a.take(i) + b.take(j + 1)).to_multiset() == (a.take(i) + b.take(j)).to_multiset().insert(
            b[j],
        ),
{
    broadcast use group_to_multiset_ensures;

    let joined = a.take(i) + b.take(j);
    assert(a.take(i) + b.take(j + 1) =~= joined.push(b[j]));
}

/// Sorts the elements `v[lo..hi]` into a new vector.
fn sort_range(v: &Vec<i64>, lo: usize, hi: usize) -> (r: Vec<i64>)
    requires
        lo <= hi <= v.len(),
    ensures
        is_ascending_of(r@, v@.subrange(lo as int, hi as int)),
        r@.len() == hi - lo,
    decreases hi - lo,
{
    broadcast use group_to_multiset_ensures;

    let ghost part = v@.subrange(lo as int, hi as int);
    if hi - lo == 0 {
        let out: Vec<i64> = Vec::new();
        assert(out@ =~= part);
        out
    } else if hi - lo == 1 {
        let mut out: Vec<i64> = Vec::new();
        out.push(v[lo]);
        assert(out@ =~= part);
        out
    } else {
        let mid: usize = lo + (hi - lo) / 2;
        let left = sort_range(v, lo, mid);
        let right = sort_range(v, mid, hi);
        let out = merge_sorted(&left, &right);
        proof {
            let lpart = v@.subrange(lo as int, mid as int);
            let rpart = v@.subrange(mid as int, hi as int);
            assert(part =~= lpart + rpart);
            lemma_multiset_commutative(left@, right@);
            lemma_multiset_commutative(lpart, rpart);
        }
        out
    }
}

/// Returns the elements of `v` in ascending order; `v` itself is untouched.
pub fn sorted_copy(v: &Vec<i64>) -> (r: Vec<i64>)
    ensures
        r@ == ascending(v@),
        is_ascending_of(r@, v@),
        r@.len() == v@.len(),
{
    let out = sort_range(v, 0, v.len());
    proof {
        assert(v@.subrange(0, v@.len() as int) =~= v@);
        lemma_ascending_characterized(out@, v@);
    }
    out
}

} // verus!
