//! The laws the query functions obey, stated over the same spec
//! functions their contracts use and proved for every fleet.

use crate::car::Car;
use crate::queries::brand_views;
use crate::queries::dedup_first;
use crate::queries::electric_cars;
use crate::queries::is_electric_fn;
use crate::queries::lemma_dedup_first_contains;
use crate::queries::lemma_dedup_first_distinct;
use crate::queries::lemma_dedup_first_len;
use crate::queries::most_expensive_index;
use crate::queries::non_electric_cars;
use crate::queries::sum_cost;
use vstd::prelude::*;

verus! {

/// `a` can be read off `b` by deleting elements of `b` while keeping
/// the remaining ones in their relative order.
pub open spec fn subsequence_of(a: Seq<Car>, b: Seq<Car>) -> bool
    decreases a.len() + b.len(),
{
    if a.len() == 0 {
        true
    } else if b.len() == 0 {
        false
    } else if a.last() == b.last() {
        subsequence_of(a.drop_last(), b.drop_last()) || subsequence_of(a, b.drop_last())
    } else {
        subsequence_of(a, b.drop_last())
    }
}

proof fn lemma_electric_cars_subsequence(s: Seq<Car>)
    ensures
        subsequence_of(electric_cars(s), s),
    decreases s.len(),
{
    reveal_with_fuel(Seq::<_>::filter, 2);
    if s.len() > 0 {
        lemma_electric_cars_subsequence(s.drop_last());
        let t = s.drop_last();
        let f = electric_cars(s);
        if is_electric_fn()(s.last()) {
            assert(f == electric_cars(t).push(s.last()));
            assert(f.drop_last() =~= electric_cars(t));
            assert(f.last() == s.last());
        } else {
            assert(f == electric_cars(t));
        }
    }
}

/// The electric cars form a subsequence of the fleet in its original
/// order; each of them is electric, and a combustion car never appears
/// among them.
pub proof fn lemma_only_electric_properties(s: Seq<Car>)
    ensures
        subsequence_of(electric_cars(s), s),
        forall|k: int| 0 <= k < electric_cars(s).len() ==> electric_cars(s)[k].is_electric,
        forall|i: int|
            0 <= i < s.len() && !s[i].is_electric ==> !electric_cars(s).contains(s[i]),
{
    lemma_electric_cars_subsequence(s);
    assert forall|k: int|
        0 <= k < electric_cars(s).len() implies electric_cars(s)[k].is_electric by {
        s.lemma_filter_pred(is_electric_fn(), k);
    }
    assert forall|i: int|
        0 <= i < s.len() && !s[i].is_electric implies !electric_cars(s).contains(s[i]) by {
        if electric_cars(s).contains(s[i]) {
            let k = choose|k: int|
                0 <= k < electric_cars(s).len() && electric_cars(s)[k] == s[i];
            s.lemma_filter_pred(is_electric_fn(), k);
        }
    }
}

proof fn lemma_sum_cost_push(s: Seq<Car>, c: Car)
    ensures
        sum_cost(s.push(c)) == sum_cost(s) + c.cost,
{
    assert(s.push(c).drop_last() =~= s);
    assert(s.push(c).last() == c);
}

/// The cost of a fleet splits exactly into the cost of its electric
/// cars and the cost of its combustion cars.
pub proof fn lemma_total_cost_split(s: Seq<Car>)
    ensures
        sum_cost(s) == sum_cost(electric_cars(s)) + sum_cost(non_electric_cars(s)),
    decreases s.len(),
{
    reveal_with_fuel(Seq::<_>::filter, 2);
    if s.len() > 0 {
        lemma_total_cost_split(s.drop_last());
        let t = s.drop_last();
        if s.last().is_electric {
            assert(electric_cars(s) == electric_cars(t).push(s.last()));
            assert(non_electric_cars(s) == non_electric_cars(t));
            lemma_sum_cost_push(electric_cars(t), s.last());
        } else {
            assert(non_electric_cars(s) == non_electric_cars(t).push(s.last()));
            assert(electric_cars(s) == electric_cars(t));
            lemma_sum_cost_push(non_electric_cars(t), s.last());
        }
    }
}

/// The position of the first occurrence of `x` in `s` (the length of
/// `s` when `x` does not occur).
pub open spec fn first_index(s: Seq<Seq<char>>, x: Seq<char>) -> int
    decreases s.len(),
{
    if s.len() == 0 {
        0
    } else if s.first() == x {
        0
    } else {
        1 + first_index(s.drop_first(), x)
    }
}

/// For a value that occurs, `first_index` points at an occurrence and
/// nothing before it is one.
pub proof fn lemma_first_index_ensures(s: Seq<Seq<char>>, x: Seq<char>)
    requires
        s.contains(x),
    ensures
        0 <= first_index(s, x) < s.len(),
        s[first_index(s, x)] == x,
        forall|k: int| 0 <= k < first_index(s, x) ==> s[k] != x,
    decreases s.len(),
{
    if s.first() != x {
        let i = choose|i: int| 0 <= i < s.len() && s[i] == x;
        assert(s.drop_first()[i - 1] == x);
        lemma_first_index_ensures(s.drop_first(), x);
        let f = first_index(s.drop_first(), x);
        assert(s[1 + f] == s.drop_first()[f]);
        assert forall|k: int| 0 <= k < 1 + f implies s[k] != x by {
            if k > 0 {
                assert(s.drop_first()[k - 1] == s[k]);
            }
        }
    }
}

/// Dropping the last element moves no earlier first occurrence, and a
/// value occurring only there has its first occurrence there.
proof fn lemma_first_index_drop_last(s: Seq<Seq<char>>, x: Seq<char>)
    requires
        s.len() > 0,
    ensures
        s.drop_last().contains(x) ==> first_index(s, x) == first_index(s.drop_last(), x),
        !s.drop_last().contains(x) && s.last() == x ==> first_index(s, x) == s.len() - 1,
    decreases s.len(),
{
    let t = s.drop_last();
    if s.len() == 1 {
        assert(t.len() == 0);
        assert(s.first() == s.last());
    } else if s.first() == x {
        assert(t.first() == s.first());
        assert(t[0] == x);
    } else {
        let sd = s.drop_first();
        assert(sd.drop_last() =~= t.drop_first());
        assert(sd.last() == s.last());
        assert(t.first() == s.first());
        lemma_first_index_drop_last(sd, x);
        if t.contains(x) {
            let i = choose|i: int| 0 <= i < t.len() && t[i] == x;
            assert(i > 0);
            assert(t.drop_first()[i - 1] == x);
            assert(sd.drop_last().contains(x));
            assert(first_index(sd, x) == first_index(t.drop_first(), x));
            assert(first_index(s, x) == 1 + first_index(sd, x));
            assert(first_index(t, x) == 1 + first_index(t.drop_first(), x));
        } else if s.last() == x {
            if sd.drop_last().contains(x) {
                let i = choose|i: int|
                    0 <= i < t.drop_first().len() && t.drop_first()[i] == x;
                assert(t[i + 1] == x);
                assert(false);
            }
            assert(first_index(sd, x) == sd.len() - 1);
            assert(first_index(s, x) == 1 + first_index(sd, x));
        }
    }
}

/// Stable de-duplication lists values in the order of their first
/// occurrence in the input.
pub proof fn lemma_dedup_first_order(s: Seq<Seq<char>>)
    ensures
        forall|i: int, j: int|
            0 <= i < j < dedup_first(s).len() ==> first_index(s, dedup_first(s)[i])
                < first_index(s, dedup_first(s)[j]),
    decreases s.len(),
{
    if s.len() > 0 {
        let t = s.drop_last();
        lemma_dedup_first_order(t);
        let d0 = dedup_first(t);
        let d = dedup_first(s);
        assert forall|i: int, j: int|
            0 <= i < j < d.len() implies first_index(s, d[i]) < first_index(s, d[j]) by {
            if d0.contains(s.last()) {
                assert(d == d0);
                assert(d0.contains(d[i]));
                assert(d0.contains(d[j]));
                lemma_dedup_first_contains(t, d[i]);
                lemma_dedup_first_contains(t, d[j]);
                lemma_first_index_drop_last(s, d[i]);
                lemma_first_index_drop_last(s, d[j]);
            } else {
                assert(d == d0.push(s.last()));
                assert(d[i] == d0[i]);
                assert(d0.contains(d0[i]));
                lemma_dedup_first_contains(t, d[i]);
                lemma_first_index_drop_last(s, d[i]);
                lemma_first_index_ensures(t, d[i]);
                if j < d.len() - 1 {
                    assert(d[j] == d0[j]);
                    assert(d0.contains(d0[j]));
                    lemma_dedup_first_contains(t, d[j]);
                    lemma_first_index_drop_last(s, d[j]);
                } else {
                    assert(d[j] == s.last());
                    lemma_dedup_first_contains(t, s.last());
                    lemma_first_index_drop_last(s, s.last());
                }
            }
        }
    }
}

/// The distinct brands: no repeats, never more entries than the fleet,
/// the same brand values as the fleet, and listed in the order of their
/// first occurrence.
pub proof fn lemma_unique_brands_properties(s: Seq<Car>)
    ensures
        forall|i: int, j: int|
            0 <= i < j < dedup_first(brand_views(s)).len() ==> dedup_first(brand_views(s))[i]
                != dedup_first(brand_views(s))[j],
        dedup_first(brand_views(s)).len() <= s.len(),
        forall|x: Seq<char>|
            dedup_first(brand_views(s)).contains(x) <==> brand_views(s).contains(x),
        forall|i: int, j: int|
            0 <= i < j < dedup_first(brand_views(s)).len() ==> first_index(
                brand_views(s),
                dedup_first(brand_views(s))[i],
            ) < first_index(brand_views(s), dedup_first(brand_views(s))[j]),
{
    lemma_dedup_first_distinct(brand_views(s));
    lemma_dedup_first_len(brand_views(s));
    assert(brand_views(s).len() == s.len());
    assert forall|x: Seq<char>|
        dedup_first(brand_views(s)).contains(x) <==> brand_views(s).contains(x) by {
        lemma_dedup_first_contains(brand_views(s), x);
    }
    lemma_dedup_first_order(brand_views(s));
}

/// The champion of the cost reduction is the first car with maximal
/// cost: nothing costs more, and everything before it costs strictly
/// less.
pub proof fn lemma_most_expensive_first_max(s: Seq<Car>)
    requires
        s.len() > 0,
    ensures
        0 <= most_expensive_index(s) < s.len(),
        forall|j: int|
            0 <= j < s.len() ==> (#[trigger] s[j]).cost <= s[most_expensive_index(s)].cost,
        forall|j: int|
            0 <= j < most_expensive_index(s) ==> (#[trigger] s[j]).cost < s[
                most_expensive_index(s)
            ].cost,
    decreases s.len(),
{
    crate::queries::lemma_most_expensive_index_bounds(s);
    if s.len() > 1 {
        lemma_most_expensive_first_max(s.drop_last());
        let t = s.drop_last();
        let k0 = most_expensive_index(t);
        let k = most_expensive_index(s);
        assert(t[k0] == s[k0]);
        assert(s.last() == s[s.len() - 1]);
        if s.last().cost > t[k0].cost {
            assert(k == s.len() - 1);
            assert forall|j: int| 0 <= j < s.len() implies (#[trigger] s[j]).cost <= s[k].cost by {
                if j < s.len() - 1 {
                    assert(s[j] == t[j]);
                    assert(t[j].cost <= t[k0].cost);
                }
            }
            assert forall|j: int| 0 <= j < k implies (#[trigger] s[j]).cost < s[k].cost by {
                assert(s[j] == t[j]);
                assert(t[j].cost <= t[k0].cost);
            }
        } else {
            assert(k == k0);
            assert forall|j: int| 0 <= j < s.len() implies (#[trigger] s[j]).cost <= s[k].cost by {
                if j < s.len() - 1 {
                    assert(s[j] == t[j]);
                    assert(t[j].cost <= t[k0].cost);
                }
            }
            assert forall|j: int| 0 <= j < k implies (#[trigger] s[j]).cost < s[k].cost by {
                assert(s[j] == t[j]);
                assert(t[j].cost < t[k0].cost);
            }
        }
    }
}

} // verus!
