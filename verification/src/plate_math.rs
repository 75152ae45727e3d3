//! The three entry points of the library: the greedy plate selector, the
//! enumerator of symmetric loaded-pair weight sums, and the reachable
//! weight-space builder.

use vstd::prelude::*;

use crate::sorted::elems;
use crate::sorted::elems_upto;
use crate::sorted::lemma_elems_upto_step;
use crate::sorted::lemma_sorted_push;
use crate::sorted::shift_set;
use crate::sorted::strictly_sorted;

verus! {

/// One available plate denomination: its weight, in the caller's fixed
/// integer unit, and how many plates of that weight are on hand.
///
/// An inventory is an ascending-by-weight sequence of these; the selector
/// assumes that order and does not check it.
#[derive(Clone, Copy)]
pub struct Plate {
    pub weight: u64,
    pub count: u16,
}

/// What the selector appends while standing at denomination `i` with
/// `wl` still to load: the plate's weight if it fits, nothing otherwise.
pub open spec fn greedy_head(plates: Seq<Plate>, i: int, wl: int) -> Seq<u64> {
    if plates[i].weight <= wl {
        seq![plates[i].weight]
    } else {
        Seq::empty()
    }
}

/// What remains to load after the step above.
pub open spec fn greedy_rest(plates: Seq<Plate>, i: int, wl: int) -> int {
    if plates[i].weight <= wl {
        wl - plates[i].weight
    } else {
        wl
    }
}

/// The selector's walk, largest denomination first. At denomination `i`
/// with `count` plates of it still untried and `wl` left to load, it takes
/// the plate if it fits, then spends one unit of the count; when the count
/// is spent it steps down to denomination `i - 1`, and it stops when `wl`
/// is gone or the smallest denomination is spent.
pub open spec fn greedy_select(plates: Seq<Plate>, i: int, count: int, wl: int) -> Seq<u64>
    decreases (if i < 0 { 0int } else { i }), (if count < 0 { 0int } else { count }),
{
    if wl <= 0 || i < 0 || i >= plates.len() {
        Seq::empty()
    } else if count <= 1 {
        if i == 0 {
            greedy_head(plates, i, wl)
        } else {
            greedy_head(plates, i, wl) + greedy_select(
                plates,
                i - 1,
                plates[i - 1].count as int,
                greedy_rest(plates, i, wl),
            )
        }
    } else {
        greedy_head(plates, i, wl) + greedy_select(plates, i, count - 1, greedy_rest(plates, i, wl))
    }
}

/// The full selector: absent inputs and an empty inventory give an empty
/// selection; otherwise the greedy walk starts at the largest denomination
/// with half of `target - handle` to load.
pub open spec fn determine_plates_spec(
    target: Option<u64>,
    handle: Option<u64>,
    plates: Seq<Plate>,
) -> Seq<u64> {
    if target is None || handle is None || plates.len() == 0 {
        Seq::empty()
    } else {
        greedy_select(
            plates,
            plates.len() - 1,
            plates.last().count as int,
            (target.unwrap() - handle.unwrap()) / 2,
        )
    }
}

/// Chooses the plates to load on one side of the bar so that their sum
/// approaches half of `target - handle`, greedily from the largest
/// denomination down, spending at most `count` plates of each.
///
/// The inventory must be ascending by weight; that order is assumed, not
/// checked. Each denomination must have at least one plate on hand.
pub fn determine_plates(
    target: Option<u64>,
    handle: Option<u64>,
    plates: &Vec<Plate>,
) -> (r: Vec<u64>)
    requires
        forall|j: int| 0 <= j < plates@.len() ==> (#[trigger] plates@[j]).count >= 1,
    ensures
        r@ == determine_plates_spec(target, handle, plates@),
{
    let mut result: Vec<u64> = Vec::new();
    if target.is_none() || handle.is_none() || plates.len() == 0 {
        return result;
    }
    let t = target.unwrap();
    let h = handle.unwrap();
    if t <= h {
        proof {
            assert((t - h) / 2 <= 0) by {
                vstd::arithmetic::div_mod::lemma_div_is_ordered(t - h, 0, 2);
            }
            assert(result@ =~= determine_plates_spec(target, handle, plates@));
        }
        return result;
    }
    let mut wl: u64 = (t - h) / 2;
    let ghost goal = determine_plates_spec(target, handle, plates@);
    let mut i: usize = plates.len() - 1;
    let mut weight: u64 = plates[i].weight;
    let mut count: u16 = plates[i].count;
    let mut stop = false;
    proof {
        assert(result@ + greedy_select(plates@, i as int, count as int, wl as int) =~= goal);
    }
    while wl > 0 && !stop
        invariant
            0 <= i < plates@.len(),
            weight == plates@[i as int].weight,
            count >= 1,
            forall|j: int| 0 <= j < plates@.len() ==> (#[trigger] plates@[j]).count >= 1,
            !stop ==> result@ + greedy_select(plates@, i as int, count as int, wl as int) == goal,
            stop ==> result@ == goal,
        decreases (if stop { 0int } else { 1int }), i, count,
    {
        let ghost pre = result@;
        let ghost gi = i as int;
        let ghost gc = count as int;
        let ghost gwl = wl as int;
        if weight <= wl {
            result.push(weight);
            wl = wl - weight;
        }
        proof {
            assert(result@ =~= pre + greedy_head(plates@, gi, gwl));
            assert(wl as int == greedy_rest(plates@, gi, gwl));
        }
        if count == 1 {
            if i == 0 {
                stop = true;
                proof {
                    assert(greedy_select(plates@, gi, gc, gwl) =~= greedy_head(plates@, gi, gwl));
                    assert(result@ =~= goal);
                }
            } else {
                i = i - 1;
                weight = plates[i].weight;
                count = plates[i].count;
                proof {
                    assert(greedy_select(plates@, gi, gc, gwl) == greedy_head(plates@, gi, gwl)
                        + greedy_select(plates@, i as int, count as int, wl as int));
                    assert(result@ + greedy_select(plates@, i as int, count as int, wl as int)
                        =~= goal);
                }
            }
        } else {
            count = count - 1;
            proof {
                assert(greedy_select(plates@, gi, gc, gwl) == greedy_head(plates@, gi, gwl)
                    + greedy_select(plates@, gi, count as int, wl as int));
                assert(result@ + greedy_select(plates@, gi, count as int, wl as int) =~= goal);
            }
        }
    }
    proof {
        if !stop {
            assert(greedy_select(plates@, i as int, count as int, wl as int) =~= Seq::<
                u64,
            >::empty());
            assert(result@ =~= goal);
        }
    }
    result
}

/// Merges two strictly increasing weight sequences into one: the result is
/// strictly increasing and holds exactly the values of both inputs, a value
/// present in both appearing once.
pub fn merge(a: &Vec<u64>, b: &Vec<u64>) -> (r: Vec<u64>)
    requires
        strictly_sorted(a@),
        strictly_sorted(b@),
    ensures
        strictly_sorted(r@),
        elems(r@) == elems(a@).union(elems(b@)),
        r@.len() <= a@.len() + b@.len(),
{
    let mut r: Vec<u64> = Vec::new();
    let mut ai: usize = 0;
    let mut bi: usize = 0;
    proof {
        assert(elems(r@) =~= elems_upto(a@, 0).union(elems_upto(b@, 0)));
    }
    while ai < a.len() && bi < b.len()
        invariant
            ai <= a@.len(),
            bi <= b@.len(),
            strictly_sorted(a@),
            strictly_sorted(b@),
            strictly_sorted(r@),
            r@.len() <= ai + bi,
            elems(r@) == elems_upto(a@, ai as int).union(elems_upto(b@, bi as int)),
            r@.len() > 0 && ai < a@.len() ==> r@.last() < a@[ai as int],
            r@.len() > 0 && bi < b@.len() ==> r@.last() < b@[bi as int],
        decreases a@.len() - ai + b@.len() - bi,
    {
        let ghost pre = r@;
        let ghost gai = ai as int;
        let ghost gbi = bi as int;
        let av = a[ai];
        let bv = b[bi];
        if av <= bv {
            proof {
                lemma_sorted_push(r@, av);
                lemma_elems_upto_step(a@, gai);
            }
            r.push(av);
            ai = ai + 1;
            if av == bv {
                proof {
                    lemma_elems_upto_step(b@, gbi);
                }
                bi = bi + 1;
                proof {
                    assert(elems(r@) =~= elems_upto(a@, gai + 1).union(elems_upto(b@, gbi + 1)));
                }
            } else {
                proof {
                    assert(elems(r@) =~= elems_upto(a@, gai + 1).union(elems_upto(b@, gbi)));
                }
            }
        } else {
            proof {
                lemma_sorted_push(r@, bv);
                lemma_elems_upto_step(b@, gbi);
            }
            r.push(bv);
            bi = bi + 1;
            proof {
                assert(elems(r@) =~= elems_upto(a@, gai).union(elems_upto(b@, gbi + 1)));
            }
        }
    }
    while ai < a.len()
        invariant
            ai <= a@.len(),
            bi <= b@.len(),
            strictly_sorted(a@),
            strictly_sorted(r@),
            r@.len() <= ai + bi,
            elems(r@) == elems_upto(a@, ai as int).union(elems_upto(b@, bi as int)),
            r@.len() > 0 && ai < a@.len() ==> r@.last() < a@[ai as int],
            ai < a@.len() ==> bi == b@.len(),
            r@.len() > 0 && bi < b@.len() ==> r@.last() < b@[bi as int],
        decreases a@.len() - ai,
    {
        let ghost gai = ai as int;
        let av = a[ai];
        proof {
            lemma_sorted_push(r@, av);
            lemma_elems_upto_step(a@, gai);
        }
        r.push(av);
        ai = ai + 1;
        proof {
            assert(elems(r@) =~= elems_upto(a@, gai + 1).union(elems_upto(b@, bi as int)));
        }
    }
    while bi < b.len()
        invariant
            ai == a@.len(),
            bi <= b@.len(),
            strictly_sorted(b@),
            strictly_sorted(r@),
            r@.len() <= ai + bi,
            elems(r@) == elems_upto(a@, ai as int).union(elems_upto(b@, bi as int)),
            r@.len() > 0 && bi < b@.len() ==> r@.last() < b@[bi as int],
        decreases b@.len() - bi,
    {
        let ghost gbi = bi as int;
        let bv = b[bi];
        proof {
            lemma_sorted_push(r@, bv);
            lemma_elems_upto_step(b@, gbi);
        }
        r.push(bv);
        bi = bi + 1;
        proof {
            assert(elems(r@) =~= elems_upto(a@, ai as int).union(elems_upto(b@, gbi + 1)));
        }
    }
    r
}

/// The denominations a call with this `pivot` still covers: the first
/// `len - pivot` entries of the list.
pub open spec fn n_denoms(plates: Seq<u64>, pivot: int) -> nat {
    if 0 <= pivot < plates.len() {
        (plates.len() - pivot) as nat
    } else {
        0
    }
}

/// The sum of the doubled weights of the denominations still covered:
/// the largest total a combination of them can load.
pub open spec fn sum2(plates: Seq<u64>, pivot: int) -> int
    decreases plates.len() - pivot,
{
    if pivot < 0 || pivot >= plates.len() {
        0
    } else {
        2 * plates[plates.len() - 1 - pivot] + sum2(plates, pivot + 1)
    }
}

/// Every total weight that some choice of the covered denominations can
/// load: each chosen denomination contributes one mirrored pair, twice its
/// weight, and the empty choice contributes 0.
pub open spec fn combo_sums(plates: Seq<u64>, pivot: int) -> Set<int>
    decreases plates.len() - pivot,
{
    if pivot < 0 || pivot >= plates.len() {
        set![0]
    } else {
        let rest = combo_sums(plates, pivot + 1);
        rest.union(shift_set(rest, 2 * plates[plates.len() - 1 - pivot]))
    }
}

/// The combination sums always include the empty load, and every one of
/// them lies between 0 and the sum of all covered doubled weights.
pub proof fn lemma_combo_sums_bounds(plates: Seq<u64>, pivot: int)
    ensures
        combo_sums(plates, pivot).contains(0),
        forall|v: int| #[trigger]
            combo_sums(plates, pivot).contains(v) ==> 0 <= v <= sum2(plates, pivot),
        sum2(plates, pivot) >= 0,
    decreases plates.len() - pivot,
{
    if pivot < 0 || pivot >= plates.len() {
    } else {
        lemma_combo_sums_bounds(plates, pivot + 1);
    }
}

/// Enumerates every distinct total weight that loading mirrored pairs of
/// the denominations at positions `0 .. len - pivot` can add to the bar:
/// the result is strictly increasing, begins with 0 (the empty load), holds
/// exactly the combination sums, and so has at most `2^(len - pivot)`
/// entries. `pivot` counts denominations already handled, from the end of
/// the ascending list, so the first call passes 0.
pub fn determine_plate_combos(plates: &Vec<u64>, pivot: usize) -> (r: Vec<u64>)
    requires
        sum2(plates@, pivot as int) <= u64::MAX,
    ensures
        strictly_sorted(r@),
        elems(r@) == combo_sums(plates@, pivot as int),
        r@.len() >= 1,
        r@[0] == 0,
        r@.len() <= vstd::arithmetic::power2::pow2(n_denoms(plates@, pivot as int)),
    decreases plates@.len() - pivot,
{
    if pivot >= plates.len() {
        let mut r: Vec<u64> = Vec::new();
        r.push(0);
        proof {
            vstd::arithmetic::power2::lemma2_to64();
            assert(elems(r@) =~= combo_sums(plates@, pivot as int)) by {
                assert(r@[0] as int == 0);
            }
        }
        return r;
    }
    let ghost gp = pivot as int;
    proof {
        lemma_combo_sums_bounds(plates@, gp + 1);
    }
    let plate = plates[plates.len() - 1 - pivot];
    let loaded = 2 * plate;
    let loads = determine_plate_combos(plates, pivot + 1);
    let ghost lv = loads@;
    let mut new_loads: Vec<u64> = Vec::new();
    let mut k: usize = 0;
    while k < loads.len()
        invariant
            k <= lv.len(),
            loads@ == lv,
            new_loads@.len() == k,
            forall|j: int| 0 <= j < k ==> new_loads@[j] as int == lv[j] + loaded,
            loaded == 2 * plates@[plates@.len() - 1 - gp],
            elems(lv) == combo_sums(plates@, gp + 1),
            forall|v: int| #[trigger]
                combo_sums(plates@, gp + 1).contains(v) ==> 0 <= v <= sum2(plates@, gp + 1),
            sum2(plates@, gp) <= u64::MAX,
            0 <= gp < plates@.len(),
        decreases lv.len() - k,
    {
        proof {
            assert(elems(lv).contains(lv[k as int] as int));
        }
        let v = loads[k] + loaded;
        new_loads.push(v);
        k = k + 1;
    }
    proof {
        assert forall|i: int, j: int| 0 <= i < j < new_loads@.len() implies new_loads@[i]
            < new_loads@[j] by {
            assert(lv[i] < lv[j]);
        }
        assert forall|v: int| elems(new_loads@).contains(v) implies shift_set(
            elems(lv),
            loaded as int,
        ).contains(v) by {
            let k0 = choose|k0: int|
                0 <= k0 < new_loads@.len() && new_loads@[k0] as int == v;
            assert(lv[k0] as int == v - loaded);
        }
        assert forall|v: int| shift_set(elems(lv), loaded as int).contains(v) implies elems(
            new_loads@,
        ).contains(v) by {
            let k0 = choose|k0: int| 0 <= k0 < lv.len() && lv[k0] as int == v - loaded;
            assert(new_loads@[k0] as int == v);
        }
        assert(elems(new_loads@) =~= shift_set(elems(lv), loaded as int));
    }
    let r = merge(&loads, &new_loads);
    proof {
        assert(elems(r@) =~= combo_sums(plates@, gp));
        lemma_combo_sums_bounds(plates@, gp);
        assert(elems(r@).contains(0));
        let k0 = choose|k0: int| 0 <= k0 < r@.len() && r@[k0] as int == 0;
        if k0 > 0 {
            assert(r@[0] < r@[k0]);
        }
        assert(n_denoms(plates@, gp) == n_denoms(plates@, gp + 1) + 1);
        vstd::arithmetic::power2::lemma_pow2_unfold(n_denoms(plates@, gp));
    }
    r
}

/// Builds the full reachable weight space: every combination sum of the
/// denomination list plus the handle weight. An absent handle gives an
/// empty result; otherwise the result is strictly increasing, holds
/// exactly the combination sums shifted by the handle, and begins with the
/// bare handle weight.
pub fn determine_weight_space(handle: Option<u64>, plates: &Vec<u64>) -> (r: Vec<u64>)
    requires
        handle is Some ==> sum2(plates@, 0) + handle.unwrap() <= u64::MAX,
    ensures
        handle is None ==> r@ == Seq::<u64>::empty(),
        handle is Some ==> strictly_sorted(r@) && elems(r@) == shift_set(
            combo_sums(plates@, 0),
            handle.unwrap() as int,
        ) && r@.len() >= 1 && r@[0] == handle.unwrap() && r@.len()
            <= vstd::arithmetic::power2::pow2(plates@.len()),
{
    if handle.is_none() {
        let r: Vec<u64> = Vec::new();
        proof {
            assert(r@ =~= Seq::<u64>::empty());
        }
        return r;
    }
    let h = handle.unwrap();
    proof {
        lemma_combo_sums_bounds(plates@, 0);
    }
    let mut weights = determine_plate_combos(plates, 0);
    let ghost c = weights@;
    let mut i: usize = 0;
    while i < weights.len()
        invariant
            i <= c.len(),
            weights@.len() == c.len(),
            forall|j: int| 0 <= j < i ==> weights@[j] as int == c[j] + h,
            forall|j: int| i <= j < c.len() ==> weights@[j] == c[j],
            strictly_sorted(c),
            elems(c) == combo_sums(plates@, 0),
            forall|v: int| #[trigger]
                combo_sums(plates@, 0).contains(v) ==> 0 <= v <= sum2(plates@, 0),
            sum2(plates@, 0) + h <= u64::MAX,
        decreases c.len() - i,
    {
        proof {
            assert(elems(c).contains(c[i as int] as int));
        }
        let v = weights[i] + h;
        weights.set(i, v);
        i = i + 1;
    }
    proof {
        assert forall|i0: int, j0: int| 0 <= i0 < j0 < weights@.len() implies weights@[i0]
            < weights@[j0] by {
            assert(c[i0] < c[j0]);
        }
        assert forall|v: int| elems(weights@).contains(v) implies shift_set(
            combo_sums(plates@, 0),
            h as int,
        ).contains(v) by {
            let k0 = choose|k0: int|
                0 <= k0 < weights@.len() && weights@[k0] as int == v;
            assert(elems(c).contains(c[k0] as int));
            assert(c[k0] as int == v - h);
        }
        assert forall|v: int| shift_set(combo_sums(plates@, 0), h as int).contains(
            v,
        ) implies elems(weights@).contains(v) by {
            let k0 = choose|k0: int| 0 <= k0 < c.len() && c[k0] as int == v - h;
            assert(weights@[k0] as int == v);
        }
        assert(elems(weights@) =~= shift_set(combo_sums(plates@, 0), h as int));
        assert(n_denoms(plates@, 0) == plates@.len());
    }
    weights
}

} // verus!
