//! A small model of strictly increasing weight sequences and of the set of
//! values such a sequence holds. The merge step and the enumerator state
//! their contracts over these definitions.

use vstd::prelude::*;

verus! {

/// A weight sequence that is strictly increasing: ascending with no
/// duplicate elements.
pub open spec fn strictly_sorted(s: Seq<u64>) -> bool {
    forall|i: int, j: int| 0 <= i < j < s.len() ==> s[i] < s[j]
}

/// The set of values that occur among the first `n` elements of `s`,
/// as mathematical integers.
pub open spec fn elems_upto(s: Seq<u64>, n: int) -> Set<int> {
    Set::new(|v: int| exists|k: int| 0 <= k < n && k < s.len() && s[k] as int == v)
}

/// The set of values that occur in `s`, as mathematical integers.
pub open spec fn elems(s: Seq<u64>) -> Set<int> {
    elems_upto(s, s.len() as int)
}

/// `s` with every value moved up by `d`.
pub open spec fn shift_set(s: Set<int>, d: int) -> Set<int> {
    Set::new(|v: int| s.contains(v - d))
}

/// Appending a value above every element keeps a sequence strictly
/// increasing, and adds exactly that value to the element set.
pub proof fn lemma_sorted_push(s: Seq<u64>, x: u64)
    requires
        strictly_sorted(s),
        s.len() > 0 ==> s.last() < x,
    ensures
        strictly_sorted(s.push(x)),
        elems(s.push(x)) == elems(s).insert(x as int),
{
    assert forall|i: int, j: int| 0 <= i < j < s.push(x).len() implies s.push(x)[i]
        < s.push(x)[j] by {
        if j < s.len() {
            assert(s[i] < s[j]);
        } else {
            if i < s.len() - 1 {
                assert(s[i] < s[s.len() - 1]);
            }
        }
    }
    assert forall|v: int| elems(s.push(x)).contains(v) implies elems(s).insert(
        x as int,
    ).contains(v) by {
        let k = choose|k: int|
            0 <= k < s.push(x).len() && s.push(x)[k] as int == v;
        if k < s.len() {
            assert(s[k] as int == v);
        }
    }
    assert forall|v: int| elems(s).insert(x as int).contains(v) implies elems(
        s.push(x),
    ).contains(v) by {
        if v == x as int {
            assert(s.push(x)[s.len() as int] as int == v);
        } else {
            let k = choose|k: int| 0 <= k < s.len() && s[k] as int == v;
            assert(s.push(x)[k] as int == v);
        }
    }
    assert(elems(s.push(x)) =~= elems(s).insert(x as int));
}

/// Extending the prefix bound by one adds exactly the next element.
pub proof fn lemma_elems_upto_step(s: Seq<u64>, n: int)
    requires
        0 <= n < s.len(),
    ensures
        elems_upto(s, n + 1) == elems_upto(s, n).insert(s[n] as int),
{
    assert forall|v: int| elems_upto(s, n + 1).contains(v) implies elems_upto(
        s,
        n,
    ).insert(s[n] as int).contains(v) by {
        let k = choose|k: int| 0 <= k < n + 1 && k < s.len() && s[k] as int == v;
        if k < n {
            assert(elems_upto(s, n).contains(v));
        }
    }
    assert forall|v: int| elems_upto(s, n).insert(s[n] as int).contains(v) implies elems_upto(
        s,
        n + 1,
    ).contains(v) by {
        if v == s[n] as int {
            assert(0 <= n < n + 1 && n < s.len() && s[n] as int == v);
        } else {
            let k = choose|k: int| 0 <= k < n && k < s.len() && s[k] as int == v;
            assert(0 <= k < n + 1 && k < s.len() && s[k] as int == v);
        }
    }
    assert(elems_upto(s, n + 1) =~= elems_upto(s, n).insert(s[n] as int));
}

/// A strictly increasing sequence is determined by the set of values it
/// holds: two such sequences with the same element set are the same
/// sequence. Each contract in this crate fixes its result's element set
/// and orders it strictly, so every result is uniquely determined by the
/// inputs, and a second call with the same inputs returns the same value.
pub proof fn lemma_sorted_elems_unique(a: Seq<u64>, b: Seq<u64>)
    requires
        strictly_sorted(a),
        strictly_sorted(b),
        elems(a) == elems(b),
    ensures
        a == b,
    decreases a.len(),
{
    if a.len() == 0 {
        if b.len() > 0 {
            assert(elems(b).contains(b[0] as int));
            assert(false);
        }
        assert(a =~= b);
    } else if b.len() == 0 {
        assert(elems(a).contains(a[0] as int));
        assert(false);
    } else {
        assert(a[0] == b[0]) by {
            assert(elems(a).contains(a[0] as int));
            let k = choose|k: int| 0 <= k < b.len() && b[k] as int == a[0] as int;
            if k > 0 {
                assert(b[0] < b[k]);
            }
            assert(b[0] <= a[0]);
            assert(elems(b).contains(b[0] as int));
            let m = choose|m: int| 0 <= m < a.len() && a[m] as int == b[0] as int;
            if m > 0 {
                assert(a[0] < a[m]);
            }
            assert(a[0] <= b[0]);
        }
        let at = a.subrange(1, a.len() as int);
        let bt = b.subrange(1, b.len() as int);
        assert(strictly_sorted(at)) by {
            assert forall|i: int, j: int| 0 <= i < j < at.len() implies at[i] < at[j] by {
                assert(a[i + 1] < a[j + 1]);
            }
        }
        assert(strictly_sorted(bt)) by {
            assert forall|i: int, j: int| 0 <= i < j < bt.len() implies bt[i] < bt[j] by {
                assert(b[i + 1] < b[j + 1]);
            }
        }
        assert(elems(at) =~= elems(bt)) by {
            assert forall|v: int| elems(at).contains(v) implies elems(bt).contains(v) by {
                let k = choose|k: int| 0 <= k < at.len() && at[k] as int == v;
                assert(a[k + 1] as int == v);
                assert(elems(a).contains(v));
                let m = choose|m: int| 0 <= m < b.len() && b[m] as int == v;
                assert(b[0] == a[0] < a[k + 1]);
                assert(m > 0);
                assert(bt[m - 1] as int == v);
            }
            assert forall|v: int| elems(bt).contains(v) implies elems(at).contains(v) by {
                let k = choose|k: int| 0 <= k < bt.len() && bt[k] as int == v;
                assert(b[k + 1] as int == v);
                assert(elems(b).contains(v));
                let m = choose|m: int| 0 <= m < a.len() && a[m] as int == v;
                assert(a[0] == b[0] < b[k + 1]);
                assert(m > 0);
                assert(at[m - 1] as int == v);
            }
        }
        lemma_sorted_elems_unique(at, bt);
        assert(a =~= b) by {
            assert forall|i: int| 0 <= i < a.len() implies a[i] == b[i] by {
                if i > 0 {
                    assert(at[i - 1] == bt[i - 1]);
                }
            }
        }
    }
}

} // verus!
