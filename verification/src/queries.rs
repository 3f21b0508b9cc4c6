//! The query functions over a sequence of [`Car`] records.
//!
//! Every function borrows the fleet read-only and returns either
//! references into it or a freshly built result; none of them can fail,
//! and the empty fleet is handled explicitly by each contract.

use crate::car::Car;
use crate::order::lex_lt;
use crate::order::lemma_lex_lt_total;
use crate::order::lemma_lex_lt_transitive;
use crate::order::str_eq;
use crate::order::str_lt;
use crate::order::strictly_sorted;
use vstd::prelude::*;

verus! {

/// The predicate that selects electric cars.
pub open spec fn is_electric_fn() -> spec_fn(Car) -> bool {
    |c: Car| c.is_electric
}

/// The predicate that selects combustion cars.
pub open spec fn is_non_electric_fn() -> spec_fn(Car) -> bool {
    |c: Car| !c.is_electric
}

/// The electric cars of a fleet, in their original order.
pub open spec fn electric_cars(s: Seq<Car>) -> Seq<Car> {
    s.filter(is_electric_fn())
}

/// The combustion cars of a fleet, in their original order.
pub open spec fn non_electric_cars(s: Seq<Car>) -> Seq<Car> {
    s.filter(is_non_electric_fn())
}

/// The records a sequence of borrowed cars points at.
pub open spec fn deref_cars(s: Seq<&Car>) -> Seq<Car> {
    s.map_values(|c: &Car| *c)
}

/// The sum of all costs of a fleet.
pub open spec fn sum_cost(s: Seq<Car>) -> int
    decreases s.len(),
{
    if s.len() == 0 {
        0
    } else {
        sum_cost(s.drop_last()) + s.last().cost
    }
}

/// A price is a non-negative number of currency units.
proof fn lemma_cost_nonneg(c: Car)
    ensures
        c.cost >= 0,
{
}

/// Filtering one more element keeps the previously filtered prefix and
/// appends the element exactly when it matches.
proof fn lemma_filter_take_step(s: Seq<Car>, pred: spec_fn(Car) -> bool, i: int)
    requires
        0 <= i < s.len(),
    ensures
        s.take(i + 1).filter(pred) == if pred(s[i]) {
            s.take(i).filter(pred).push(s[i])
        } else {
            s.take(i).filter(pred)
        },
{
    reveal_with_fuel(Seq::<_>::filter, 2);
    assert(s.take(i + 1).len() == i + 1);
    assert(s.take(i + 1).drop_last() =~= s.take(i));
    assert(s.take(i + 1).last() == s[i]);
}

/// Summing one more element adds exactly its cost.
proof fn lemma_sum_cost_take_step(s: Seq<Car>, i: int)
    requires
        0 <= i < s.len(),
    ensures
        sum_cost(s.take(i + 1)) == sum_cost(s.take(i)) + s[i].cost,
{
    assert(s.take(i + 1).len() == i + 1);
    assert(s.take(i + 1).drop_last() =~= s.take(i));
    assert(s.take(i + 1).last() == s[i]);
}

/// The cost of any prefix of a fleet is at most the cost of the whole
/// fleet.
pub proof fn lemma_sum_cost_prefix_bound(s: Seq<Car>, i: int)
    requires
        0 <= i <= s.len(),
    ensures
        sum_cost(s.take(i)) <= sum_cost(s),
    decreases s.len() - i,
{
    if i < s.len() {
        lemma_sum_cost_take_step(s, i);
        lemma_cost_nonneg(s[i]);
        lemma_sum_cost_prefix_bound(s, i + 1);
    } else {
        assert(s.take(i) =~= s);
    }
}

/// Returns the electric cars of the fleet, in their original order.
pub fn only_electric<'a>(cars: &'a [Car]) -> (r: Vec<&'a Car>)
    ensures
        deref_cars(r@) == electric_cars(cars@),
{
    let mut r: Vec<&Car> = Vec::new();
    let mut i: usize = 0;
    proof {
        assert(cars@.take(0) =~= Seq::<Car>::empty());
        assert(deref_cars(r@) =~= electric_cars(cars@.take(0)));
    }
    while i < cars.len()
        invariant
            i <= cars@.len(),
            deref_cars(r@) == electric_cars(cars@.take(i as int)),
        decreases cars@.len() - i,
    {
        let ghost r0 = r@;
        if cars[i].is_electric {
            r.push(&cars[i]);
            proof {
                assert(deref_cars(r@) =~= deref_cars(r0).push(cars@[i as int]));
            }
        }
        proof {
            lemma_filter_take_step(cars@, is_electric_fn(), i as int);
        }
        i += 1;
    }
    proof {
        assert(cars@.take(cars@.len() as int) =~= cars@);
    }
    r
}

/// Returns the total cost of the fleet: the sum of the `cost` fields,
/// and 0 for the empty fleet. The sum is required to fit the result
/// width, which any realistic fleet does.
pub fn total_cost(cars: &[Car]) -> (r: u64)
    requires
        sum_cost(cars@) <= u64::MAX,
    ensures
        r == sum_cost(cars@),
{
    let mut acc: u64 = 0;
    let mut i: usize = 0;
    proof {
        assert(cars@.take(0) =~= Seq::<Car>::empty());
    }
    while i < cars.len()
        invariant
            i <= cars@.len(),
            sum_cost(cars@) <= u64::MAX,
            acc == sum_cost(cars@.take(i as int)),
        decreases cars@.len() - i,
    {
        proof {
            lemma_sum_cost_take_step(cars@, i as int);
            lemma_sum_cost_prefix_bound(cars@, i as int + 1);
            lemma_cost_nonneg(cars@[i as int]);
        }
        acc = acc + (cars[i].cost as u64);
        i += 1;
    }
    proof {
        assert(cars@.take(cars@.len() as int) =~= cars@);
    }
    acc
}

/// Reports whether every car of the fleet is electric; vacuously true
/// for the empty fleet.
pub fn all_electric(cars: &[Car]) -> (r: bool)
    ensures
        r == (forall|i: int| 0 <= i < cars@.len() ==> cars@[i].is_electric),
{
    let mut i: usize = 0;
    while i < cars.len()
        invariant
            i <= cars@.len(),
            forall|j: int| 0 <= j < i ==> cars@[j].is_electric,
        decreases cars@.len() - i,
    {
        if !cars[i].is_electric {
            return false;
        }
        i += 1;
    }
    true
}

/// Reports whether at least one car of the fleet is electric; false for
/// the empty fleet.
pub fn any_electric(cars: &[Car]) -> (r: bool)
    ensures
        r == (exists|i: int| 0 <= i < cars@.len() && cars@[i].is_electric),
{
    let mut i: usize = 0;
    while i < cars.len()
        invariant
            i <= cars@.len(),
            forall|j: int| 0 <= j < i ==> !cars@[j].is_electric,
        decreases cars@.len() - i,
    {
        if cars[i].is_electric {
            return true;
        }
        i += 1;
    }
    false
}

/// The index of the last combustion car of a fleet, or -1 if every car
/// is electric (in particular for the empty fleet).
pub open spec fn last_non_electric_index(s: Seq<Car>) -> int
    decreases s.len(),
{
    if s.len() == 0 {
        -1
    } else if !s.last().is_electric {
        s.len() - 1
    } else {
        last_non_electric_index(s.drop_last())
    }
}

/// What `last_non_electric_index` points at: a combustion car followed
/// only by electric ones, or nothing, in which case the whole fleet is
/// electric.
pub proof fn lemma_last_non_electric_index(s: Seq<Car>)
    ensures
        -1 <= last_non_electric_index(s) < s.len(),
        last_non_electric_index(s) >= 0 ==> !s[last_non_electric_index(s)].is_electric,
        last_non_electric_index(s) >= 0 ==> forall|j: int|
            last_non_electric_index(s) < j < s.len() ==> s[j].is_electric,
        last_non_electric_index(s) < 0 ==> forall|j: int|
            0 <= j < s.len() ==> s[j].is_electric,
    decreases s.len(),
{
    if s.len() > 0 && s.last().is_electric {
        lemma_last_non_electric_index(s.drop_last());
        assert(s.drop_last().len() == s.len() - 1);
        let k = last_non_electric_index(s);
        assert(k == last_non_electric_index(s.drop_last()));
        if k >= 0 {
            assert(s.drop_last()[k] == s[k]);
            assert forall|j: int| k < j < s.len() implies s[j].is_electric by {
                if j < s.len() - 1 {
                    assert(s[j] == s.drop_last()[j]);
                } else {
                    assert(s[j] == s.last());
                }
            }
        } else {
            assert forall|j: int| 0 <= j < s.len() implies s[j].is_electric by {
                if j < s.len() - 1 {
                    assert(s[j] == s.drop_last()[j]);
                } else {
                    assert(s[j] == s.last());
                }
            }
        }
    }
}

/// `last_non_electric_index` is the only index with that shape: a
/// combustion car with every later car electric.
proof fn lemma_last_non_electric_index_unique(s: Seq<Car>, i: int)
    requires
        0 <= i < s.len(),
        !s[i].is_electric,
        forall|j: int| i < j < s.len() ==> s[j].is_electric,
    ensures
        last_non_electric_index(s) == i,
{
    lemma_last_non_electric_index(s);
    let k = last_non_electric_index(s);
    if k < i {
        assert(s[i].is_electric);
    } else if k > i {
        assert(s[k].is_electric);
    }
}

/// Returns the last (highest-index) combustion car of the fleet, or
/// nothing when every car is electric. The fleet itself is only read.
pub fn last_non_electric<'a>(cars: &'a [Car]) -> (r: Option<&'a Car>)
    ensures
        match r {
            Some(c) => last_non_electric_index(cars@) >= 0 && *c == cars@[last_non_electric_index(
                cars@,
            )],
            None => last_non_electric_index(cars@) < 0,
        },
{
    let mut i: usize = cars.len();
    while i > 0
        invariant
            i <= cars@.len(),
            forall|j: int| i <= j < cars@.len() ==> cars@[j].is_electric,
        decreases i,
    {
        i = i - 1;
        if !cars[i].is_electric {
            proof {
                lemma_last_non_electric_index_unique(cars@, i as int);
            }
            return Some(&cars[i]);
        }
    }
    proof {
        lemma_last_non_electric_index(cars@);
    }
    None
}

/// The index of the car that a left-to-right reduction keeping the
/// current champion unless a strictly greater cost appears ends on:
/// the first index achieving the maximum cost.
pub open spec fn most_expensive_index(s: Seq<Car>) -> int
    decreases s.len(),
{
    if s.len() <= 1 {
        0
    } else if s.last().cost > s[most_expensive_index(s.drop_last())].cost {
        s.len() - 1
    } else {
        most_expensive_index(s.drop_last())
    }
}

/// `most_expensive_index` stays inside the fleet.
pub proof fn lemma_most_expensive_index_bounds(s: Seq<Car>)
    requires
        s.len() > 0,
    ensures
        0 <= most_expensive_index(s) < s.len(),
    decreases s.len(),
{
    if s.len() > 1 {
        lemma_most_expensive_index_bounds(s.drop_last());
    }
}

/// Taking one more element moves the champion there exactly when it
/// costs strictly more than the champion so far.
proof fn lemma_most_expensive_take_step(s: Seq<Car>, i: int)
    requires
        1 <= i < s.len(),
    ensures
        most_expensive_index(s.take(i + 1)) == if s[i].cost > s[most_expensive_index(
            s.take(i),
        )].cost {
            i
        } else {
            most_expensive_index(s.take(i))
        },
{
    lemma_most_expensive_index_bounds(s.take(i));
    assert(s.take(i + 1).len() == i + 1);
    assert(s.take(i + 1).drop_last() =~= s.take(i));
    assert(s.take(i + 1).last() == s[i]);
}

/// Returns the most expensive car of the fleet, or nothing for the
/// empty fleet. Among several cars of maximal cost the first one wins.
pub fn most_expensive<'a>(cars: &'a [Car]) -> (r: Option<&'a Car>)
    ensures
        r is None <==> cars@.len() == 0,
        cars@.len() > 0 ==> (r matches Some(c) && *c == cars@[most_expensive_index(cars@)]),
{
    if cars.len() == 0 {
        return None;
    }
    let mut best: usize = 0;
    let mut i: usize = 1;
    proof {
        assert(cars@.take(1).len() == 1);
    }
    while i < cars.len()
        invariant
            1 <= i <= cars@.len(),
            best < i,
            best == most_expensive_index(cars@.take(i as int)),
        decreases cars@.len() - i,
    {
        proof {
            lemma_most_expensive_take_step(cars@, i as int);
        }
        if cars[i].cost > cars[best].cost {
            best = i;
        }
        i += 1;
    }
    proof {
        assert(cars@.take(cars@.len() as int) =~= cars@);
    }
    Some(&cars[best])
}

/// The brand of each car of a fleet, as text, repeats included.
pub open spec fn brand_views(s: Seq<Car>) -> Seq<Seq<char>> {
    s.map_values(|c: Car| c.brand@)
}

/// The text each borrowed brand points at.
pub open spec fn str_views(s: Seq<&str>) -> Seq<Seq<char>> {
    s.map_values(|b: &str| b@)
}

/// Stable de-duplication: every value keeps its first occurrence and
/// loses the later ones.
pub open spec fn dedup_first(s: Seq<Seq<char>>) -> Seq<Seq<char>>
    decreases s.len(),
{
    if s.len() == 0 {
        Seq::empty()
    } else {
        let d = dedup_first(s.drop_last());
        if d.contains(s.last()) {
            d
        } else {
            d.push(s.last())
        }
    }
}

/// A sequence holds a value iff the part before the last element holds
/// it or the last element is the value.
proof fn lemma_contains_drop_last(s: Seq<Seq<char>>, x: Seq<char>)
    requires
        s.len() > 0,
    ensures
        s.contains(x) <==> (s.drop_last().contains(x) || s.last() == x),
{
    if s.contains(x) {
        let i = choose|i: int| 0 <= i < s.len() && s[i] == x;
        if i < s.len() - 1 {
            assert(s.drop_last()[i] == x);
        }
    }
    if s.drop_last().contains(x) {
        let i = choose|i: int| 0 <= i < s.drop_last().len() && s.drop_last()[i] == x;
        assert(s[i] == x);
    }
    if s.last() == x {
        assert(s[s.len() - 1] == x);
    }
}

/// De-duplication keeps exactly the values of its input.
pub proof fn lemma_dedup_first_contains(s: Seq<Seq<char>>, x: Seq<char>)
    ensures
        dedup_first(s).contains(x) <==> s.contains(x),
    decreases s.len(),
{
    if s.len() == 0 {
        assert(!s.contains(x));
        assert(!dedup_first(s).contains(x));
    } else {
        lemma_dedup_first_contains(s.drop_last(), x);
        lemma_contains_drop_last(s, x);
        let d0 = dedup_first(s.drop_last());
        if !d0.contains(s.last()) {
            lemma_contains_drop_last(d0.push(s.last()), x);
            assert(d0.push(s.last()).drop_last() =~= d0);
            assert(d0.push(s.last()).last() == s.last());
        }
    }
}

/// No value occurs twice after de-duplication.
pub proof fn lemma_dedup_first_distinct(s: Seq<Seq<char>>)
    ensures
        forall|i: int, j: int|
            0 <= i < j < dedup_first(s).len() ==> dedup_first(s)[i] != dedup_first(s)[j],
    decreases s.len(),
{
    if s.len() > 0 {
        lemma_dedup_first_distinct(s.drop_last());
        let d0 = dedup_first(s.drop_last());
        let d = dedup_first(s);
        if !d0.contains(s.last()) {
            assert forall|i: int, j: int| 0 <= i < j < d.len() implies d[i] != d[j] by {
                assert(d[i] == d0[i]);
                if j < d.len() - 1 {
                    assert(d[j] == d0[j]);
                } else {
                    assert(d[j] == s.last());
                    assert(d0.contains(d0[i]));
                }
            }
        }
    }
}

/// De-duplication never lengthens a sequence.
pub proof fn lemma_dedup_first_len(s: Seq<Seq<char>>)
    ensures
        dedup_first(s).len() <= s.len(),
    decreases s.len(),
{
    if s.len() > 0 {
        lemma_dedup_first_len(s.drop_last());
    }
}

/// De-duplicating one more element appends it exactly when it is new.
proof fn lemma_dedup_first_take_step(s: Seq<Seq<char>>, i: int)
    requires
        0 <= i < s.len(),
    ensures
        dedup_first(s.take(i + 1)) == if dedup_first(s.take(i)).contains(s[i]) {
            dedup_first(s.take(i))
        } else {
            dedup_first(s.take(i)).push(s[i])
        },
{
    assert(s.take(i + 1).len() == i + 1);
    assert(s.take(i + 1).drop_last() =~= s.take(i));
    assert(s.take(i + 1).last() == s[i]);
}

/// Reports whether `b` already occurs among the collected brands.
fn contains_str(v: &Vec<&str>, b: &str) -> (r: bool)
    ensures
        r == str_views(v@).contains(b@),
{
    let mut i: usize = 0;
    while i < v.len()
        invariant
            i <= v@.len(),
            forall|k: int| 0 <= k < i ==> str_views(v@)[k] != b@,
        decreases v@.len() - i,
    {
        if str_eq(v[i], b) {
            proof {
                assert(str_views(v@)[i as int] == b@);
            }
            return true;
        }
        proof {
            assert(str_views(v@)[i as int] == v@[i as int]@);
        }
        i += 1;
    }
    false
}

/// Returns each distinct brand of the fleet exactly once, in order of
/// first occurrence: a brand is skipped when it is already collected.
pub fn unique_brands<'a>(cars: &'a [Car]) -> (r: Vec<&'a str>)
    ensures
        str_views(r@) == dedup_first(brand_views(cars@)),
{
    let mut r: Vec<&str> = Vec::new();
    let mut i: usize = 0;
    proof {
        assert(brand_views(cars@).take(0) =~= Seq::<Seq<char>>::empty());
        assert(str_views(r@) =~= dedup_first(brand_views(cars@).take(0)));
    }
    while i < cars.len()
        invariant
            i <= cars@.len(),
            str_views(r@) == dedup_first(brand_views(cars@).take(i as int)),
        decreases cars@.len() - i,
    {
        let ghost r0 = r@;
        let b = cars[i].brand.as_str();
        proof {
            assert(brand_views(cars@)[i as int] == cars@[i as int].brand@);
        }
        if !contains_str(&r, b) {
            r.push(b);
            proof {
                assert(str_views(r@) =~= str_views(r0).push(b@));
            }
        }
        proof {
            lemma_dedup_first_take_step(brand_views(cars@), i as int);
        }
        i += 1;
    }
    proof {
        assert(brand_views(cars@).take(cars@.len() as int) =~= brand_views(cars@));
    }
    r
}

/// Returns each distinct brand of the fleet exactly once, in order of
/// first occurrence: a brand is kept only at the first index where it
/// occurs.
pub fn unique_brands2<'a>(cars: &'a [Car]) -> (r: Vec<&'a str>)
    ensures
        str_views(r@) == dedup_first(brand_views(cars@)),
{
    let ghost bs = brand_views(cars@);
    let mut r: Vec<&str> = Vec::new();
    let mut i: usize = 0;
    proof {
        assert(bs.take(0) =~= Seq::<Seq<char>>::empty());
        assert(str_views(r@) =~= dedup_first(bs.take(0)));
    }
    while i < cars.len()
        invariant
            i <= cars@.len(),
            bs == brand_views(cars@),
            str_views(r@) == dedup_first(bs.take(i as int)),
        decreases cars@.len() - i,
    {
        let ghost r0 = r@;
        let mut j: usize = 0;
        let mut first = true;
        while j < i
            invariant
                j <= i < cars@.len(),
                bs == brand_views(cars@),
                first <==> (forall|k: int| 0 <= k < j ==> bs[k] != bs[i as int]),
            decreases i - j,
        {
            if str_eq(cars[j].brand.as_str(), cars[i].brand.as_str()) {
                proof {
                    assert(bs[j as int] == bs[i as int]);
                }
                first = false;
            }
            proof {
                assert(bs[j as int] == cars@[j as int].brand@);
                assert(bs[i as int] == cars@[i as int].brand@);
            }
            j += 1;
        }
        proof {
            lemma_dedup_first_contains(bs.take(i as int), bs[i as int]);
            if first {
                assert forall|k: int| 0 <= k < i implies bs.take(i as int)[k] != bs[i as int] by {
                    assert(bs.take(i as int)[k] == bs[k]);
                }
                assert(!bs.take(i as int).contains(bs[i as int]));
            } else {
                let k = choose|k: int| 0 <= k < i && bs[k] == bs[i as int];
                assert(bs.take(i as int)[k] == bs[i as int]);
                assert(bs.take(i as int).contains(bs[i as int]));
            }
        }
        if first {
            r.push(cars[i].brand.as_str());
            proof {
                assert(bs[i as int] == cars@[i as int].brand@);
                assert(str_views(r@) =~= str_views(r0).push(bs[i as int]));
            }
        }
        proof {
            lemma_dedup_first_take_step(bs, i as int);
        }
        i += 1;
    }
    proof {
        assert(bs.take(cars@.len() as int) =~= bs);
    }
    r
}

/// Inserting a value between everything below it and everything above
/// it keeps a sorted sequence sorted, and adds exactly that value.
proof fn lemma_sorted_insert(v: Seq<Seq<char>>, j: int, x: Seq<char>)
    requires
        strictly_sorted(v),
        0 <= j <= v.len(),
        forall|k: int| 0 <= k < j ==> lex_lt(v[k], x),
        forall|k: int| j <= k < v.len() ==> lex_lt(x, v[k]),
    ensures
        strictly_sorted(v.insert(j, x)),
        forall|y: Seq<char>| v.insert(j, x).contains(y) <==> (v.contains(y) || y == x),
{
    v.insert_ensures(j, x);
    let w = v.insert(j, x);
    assert forall|p: int, q: int| 0 <= p < q < w.len() implies lex_lt(w[p], w[q]) by {
        if p < j {
            assert(w[p] == v[p]);
        } else if p == j {
            assert(w[p] == x);
        } else {
            assert(w[(p - 1) + 1] == v[p - 1]);
        }
        if q < j {
            assert(w[q] == v[q]);
        } else if q == j {
            assert(w[q] == x);
        } else {
            assert(w[(q - 1) + 1] == v[q - 1]);
        }
    }
    assert forall|y: Seq<char>| w.contains(y) implies (v.contains(y) || y == x) by {
        let p = choose|p: int| 0 <= p < w.len() && w[p] == y;
        if p < j {
            assert(v[p] == y);
        } else if p > j {
            assert(w[(p - 1) + 1] == v[p - 1]);
            assert(v[p - 1] == y);
        }
    }
    assert forall|y: Seq<char>| v.contains(y) || y == x implies w.contains(y) by {
        if v.contains(y) {
            let p = choose|p: int| 0 <= p < v.len() && v[p] == y;
            if p < j {
                assert(w[p] == y);
            } else {
                assert(w[p + 1] == v[p]);
                assert(w[p + 1] == y);
            }
        } else {
            assert(w[j] == x);
        }
    }
}

/// Returns the index of the first collected brand not below `b`, with
/// everything before it strictly below `b`.
fn lower_bound(v: &Vec<&str>, b: &str) -> (j: usize)
    ensures
        j <= v@.len(),
        forall|k: int| 0 <= k < j ==> lex_lt(str_views(v@)[k], b@),
        j < v@.len() ==> !lex_lt(str_views(v@)[j as int], b@),
{
    let mut j: usize = 0;
    while j < v.len()
        invariant
            j <= v@.len(),
            forall|k: int| 0 <= k < j ==> lex_lt(str_views(v@)[k], b@),
        decreases v@.len() - j,
    {
        proof {
            assert(str_views(v@)[j as int] == v@[j as int]@);
        }
        if !str_lt(v[j], b) {
            return j;
        }
        j += 1;
    }
    j
}

/// Returns the distinct brands of the fleet in ascending lexicographic
/// order by character code point. This variant gives up the order of
/// first occurrence for a sorted result.
pub fn unique_brands3<'a>(cars: &'a [Car]) -> (r: Vec<&'a str>)
    ensures
        strictly_sorted(str_views(r@)),
        forall|x: Seq<char>| str_views(r@).contains(x) <==> brand_views(cars@).contains(x),
{
    let base = unique_brands(cars);
    let ghost bv = str_views(base@);
    proof {
        lemma_dedup_first_distinct(brand_views(cars@));
    }
    let mut r: Vec<&str> = Vec::new();
    let mut i: usize = 0;
    proof {
        assert(bv.take(0) =~= Seq::<Seq<char>>::empty());
    }
    while i < base.len()
        invariant
            i <= base@.len(),
            bv == str_views(base@),
            bv == dedup_first(brand_views(cars@)),
            forall|p: int, q: int| 0 <= p < q < bv.len() ==> bv[p] != bv[q],
            strictly_sorted(str_views(r@)),
            forall|x: Seq<char>| str_views(r@).contains(x) <==> bv.take(i as int).contains(x),
        decreases base@.len() - i,
    {
        let b = base[i];
        proof {
            assert(bv[i as int] == base@[i as int]@);
            if str_views(r@).contains(b@) {
                let k = choose|k: int| 0 <= k < i && bv.take(i as int)[k] == b@;
                assert(bv[k] == bv[i as int]);
                assert(false);
            }
        }
        let j = lower_bound(&r, b);
        let ghost r0 = r@;
        let ghost vs = str_views(r@);
        proof {
            assert forall|k: int| 0 <= k < vs.len() implies vs[k] != b@ by {
                assert(str_views(r@).contains(vs[k]) || vs[k] == str_views(r@)[k]);
            }
            assert forall|k: int| j <= k < vs.len() implies lex_lt(b@, vs[k]) by {
                lemma_lex_lt_total(b@, vs[j as int]);
                if k > j {
                    lemma_lex_lt_transitive(b@, vs[j as int], vs[k]);
                }
            }
            lemma_sorted_insert(vs, j as int, b@);
        }
        r.insert(j, b);
        proof {
            r0.insert_ensures(j as int, b);
            vs.insert_ensures(j as int, b@);
            assert(str_views(r@) =~= vs.insert(j as int, b@));
            assert(bv.len() == base@.len());
            assert(bv.take(i + 1).drop_last() =~= bv.take(i as int));
            assert(bv.take(i + 1).last() == bv[i as int]);
            assert forall|x: Seq<char>|
                str_views(r@).contains(x) <==> bv.take(i + 1).contains(x) by {
                assert(vs.insert(j as int, b@).contains(x) <==> (vs.contains(x) || x == b@));
                assert(vs.contains(x) <==> bv.take(i as int).contains(x));
                lemma_contains_drop_last(bv.take(i + 1), x);
            }
        }
        i += 1;
    }
    proof {
        assert(bv.take(base@.len() as int) =~= bv);
        assert forall|x: Seq<char>|
            str_views(r@).contains(x) <==> brand_views(cars@).contains(x) by {
            lemma_dedup_first_contains(brand_views(cars@), x);
        }
    }
    r
}

} // verus!
