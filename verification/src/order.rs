//! The order in which the contents of a directory are listed.

use vstd::prelude::*;
use vstd::set_lib::{lemma_int_range, lemma_subset_equality, set_int_range};

verus! {

/// Whether one byte string stands before another: by their first different
/// bytes, or because it is where the other one begins.
pub open spec fn stands_before(a: Seq<u8>, b: Seq<u8>) -> bool
    decreases a.len(),
{
    if b.len() == 0 {
        false
    } else if a.len() == 0 {
        true
    } else if a[0] != b[0] {
        a[0] < b[0]
    } else {
        stands_before(a.skip(1), b.skip(1))
    }
}

/// Whether name `i` is listed before name `j`; equal names keep their order.
pub open spec fn listed_before(names: Seq<Seq<u8>>, i: int, j: int) -> bool {
    stands_before(names[i], names[j]) || (names[i] == names[j] && i < j)
}

/// Whether these places are listed in order.
pub open spec fn in_order(names: Seq<Seq<u8>>, places: Seq<int>) -> bool {
    forall|a: int, b: int|
        0 <= a < b < places.len() ==> listed_before(
            names,
            #[trigger] places[a],
            #[trigger] places[b],
        )
}

/// Whether this is the order in which all the names are listed.
pub open spec fn is_order(names: Seq<Seq<u8>>, places: Seq<int>) -> bool {
    &&& places.len() == names.len()
    &&& forall|a: int| 0 <= a < places.len() ==> 0 <= #[trigger] places[a] < names.len()
    &&& in_order(names, places)
}

/// No string stands before itself.
pub proof fn lemma_not_before_itself(a: Seq<u8>)
    ensures
        !stands_before(a, a),
    decreases a.len(),
{
    if a.len() > 0 {
        lemma_not_before_itself(a.skip(1));
    }
}

/// Of two different strings one stands before the other.
pub proof fn lemma_total(a: Seq<u8>, b: Seq<u8>)
    ensures
        stands_before(a, b) || stands_before(b, a) || a == b,
    decreases a.len(),
{
    if a.len() == 0 && b.len() == 0 {
        assert(a == b);
    } else if a.len() > 0 && b.len() > 0 && a[0] == b[0] {
        lemma_total(a.skip(1), b.skip(1));
        if a.skip(1) == b.skip(1) {
            assert(a == seq![a[0]] + a.skip(1));
            assert(b == seq![b[0]] + b.skip(1));
        }
    }
}

/// What stands before something stands before what comes behind it.
pub proof fn lemma_transitive(a: Seq<u8>, b: Seq<u8>, c: Seq<u8>)
    requires
        stands_before(a, b),
        stands_before(b, c),
    ensures
        stands_before(a, c),
    decreases a.len(),
{
    if a.len() > 0 && a[0] == b[0] && b[0] == c[0] {
        lemma_transitive(a.skip(1), b.skip(1), c.skip(1));
    }
}

proof fn lemma_listed_transitive(names: Seq<Seq<u8>>, i: int, j: int, k: int)
    requires
        listed_before(names, i, j),
        listed_before(names, j, k),
    ensures
        listed_before(names, i, k),
{
    if stands_before(names[i], names[j]) && stands_before(names[j], names[k]) {
        lemma_transitive(names[i], names[j], names[k]);
    }
}

/// Each name is listed once.
pub proof fn law_listing_has_no_repeats(names: Seq<Seq<u8>>, places: Seq<int>)
    requires
        is_order(names, places),
    ensures
        places.no_duplicates(),
{
    assert forall|a: int, b: int|
        0 <= a < places.len() && 0 <= b < places.len() && a != b implies places[a] != places[b] by {
        lemma_not_before_itself(names[places[a]]);
        if a < b {
            assert(listed_before(names, places[a], places[b]));
        } else {
            assert(listed_before(names, places[b], places[a]));
        }
    }
}

/// The names in the order in which they are listed.
pub open spec fn ordered(names: Seq<Seq<u8>>, places: Seq<int>) -> Seq<Seq<u8>> {
    places.map_values(|at: int| names[at])
}

/// Every name is listed.
pub proof fn law_listing_is_complete(names: Seq<Seq<u8>>, places: Seq<int>)
    requires
        is_order(names, places),
    ensures
        forall|i: int| 0 <= i < names.len() ==> places.contains(i),
        forall|x: Seq<u8>| #[trigger] ordered(names, places).contains(x) <==> names.contains(x),
{
    law_listing_has_no_repeats(names, places);
    let n = names.len() as int;
    let all = set_int_range(0, n);
    let found = places.to_set();
    lemma_int_range(0, n);
    places.unique_seq_to_set();
    assert(found.subset_of(all)) by {
        assert forall|x: int| found.contains(x) implies all.contains(x) by {
            let k = choose|k: int| 0 <= k < places.len() && places[k] == x;
            assert(0 <= places[k] < names.len());
        }
    }
    lemma_subset_equality(found, all);
    assert forall|i: int| 0 <= i < n implies places.contains(i) by {
        assert(all.contains(i));
        assert(found.contains(i));
    }
    let list = ordered(names, places);
    assert forall|x: Seq<u8>| #[trigger] list.contains(x) <==> names.contains(x) by {
        if list.contains(x) {
            let k = choose|k: int| 0 <= k < list.len() && list[k] == x;
            assert(names[places[k]] == x);
        }
        if names.contains(x) {
            let i = choose|i: int| 0 <= i < n && names[i] == x;
            assert(places.contains(i));
            let k = choose|k: int| 0 <= k < places.len() && places[k] == i;
            assert(list[k] == x);
        }
    }
}

/// Whether each name stands before those that follow.
spec fn ascending(list: Seq<Seq<u8>>) -> bool {
    forall|a: int, b: int|
        0 <= a < b < list.len() ==> stands_before(#[trigger] list[a], #[trigger] list[b])
}

proof fn lemma_ascending(names: Seq<Seq<u8>>, places: Seq<int>)
    requires
        is_order(names, places),
        names.no_duplicates(),
    ensures
        ascending(ordered(names, places)),
{
    law_listing_has_no_repeats(names, places);
    let list = ordered(names, places);
    assert forall|a: int, b: int| 0 <= a < b < list.len() implies stands_before(
        #[trigger] list[a],
        #[trigger] list[b],
    ) by {
        assert(listed_before(names, places[a], places[b]));
        assert(places[a] != places[b]);
        assert(names[places[a]] != names[places[b]]);
    }
}

proof fn lemma_same_ascending(a: Seq<Seq<u8>>, b: Seq<Seq<u8>>)
    requires
        ascending(a),
        ascending(b),
        forall|x: Seq<u8>| #[trigger] a.contains(x) <==> b.contains(x),
    ensures
        a == b,
    decreases a.len(),
{
    if a.len() == 0 {
        if b.len() > 0 {
            assert(b.contains(b[0]));
            assert(a.contains(b[0]));
        }
        assert(a == b);
    } else {
        assert(a.contains(a[0]));
        assert(b.contains(a[0]));
        assert(b.contains(b[0]));
        assert(a.contains(b[0]));
        let k = choose|k: int| 0 <= k < b.len() && b[k] == a[0];
        let m = choose|m: int| 0 <= m < a.len() && a[m] == b[0];
        if k > 0 {
            assert(stands_before(b[0], b[k]));
            lemma_not_before_itself(a[0]);
            if m > 0 {
                assert(stands_before(a[0], a[m]));
                lemma_transitive(a[0], b[0], a[0]);
            }
        }
        assert(a[0] == b[0]);
        let x = a.skip(1);
        let y = b.skip(1);
        assert(ascending(x)) by {
            assert forall|i: int, j: int| 0 <= i < j < x.len() implies stands_before(
                #[trigger] x[i],
                #[trigger] x[j],
            ) by {
                assert(stands_before(a[i + 1], a[j + 1]));
            }
        }
        assert(ascending(y)) by {
            assert forall|i: int, j: int| 0 <= i < j < y.len() implies stands_before(
                #[trigger] y[i],
                #[trigger] y[j],
            ) by {
                assert(stands_before(b[i + 1], b[j + 1]));
            }
        }
        assert forall|z: Seq<u8>| #[trigger] x.contains(z) <==> y.contains(z) by {
            lemma_not_before_itself(a[0]);
            if x.contains(z) {
                let i = choose|i: int| 0 <= i < x.len() && x[i] == z;
                assert(stands_before(a[0], a[i + 1]));
                assert(a.contains(z));
                assert(b.contains(z));
                let j = choose|j: int| 0 <= j < b.len() && b[j] == z;
                assert(j > 0);
                assert(y[j - 1] == z);
            }
            if y.contains(z) {
                let i = choose|i: int| 0 <= i < y.len() && y[i] == z;
                assert(stands_before(b[0], b[i + 1]));
                assert(b.contains(z));
                assert(a.contains(z));
                let j = choose|j: int| 0 <= j < a.len() && a[j] == z;
                assert(j > 0);
                assert(x[j - 1] == z);
            }
        }
        lemma_same_ascending(x, y);
        assert(a == seq![a[0]] + x);
        assert(b == seq![b[0]] + y);
    }
}

/// The order depends on the names alone: the same names are listed in the same order,
/// however they were found.
pub proof fn law_order_depends_on_names_alone(
    names: Seq<Seq<u8>>,
    places: Seq<int>,
    again: Seq<Seq<u8>>,
    places_again: Seq<int>,
)
    requires
        is_order(names, places),
        is_order(again, places_again),
        names.no_duplicates(),
        again.no_duplicates(),
        forall|x: Seq<u8>| #[trigger] names.contains(x) <==> again.contains(x),
    ensures
        ordered(names, places) == ordered(again, places_again),
{
    law_listing_is_complete(names, places);
    law_listing_is_complete(again, places_again);
    lemma_ascending(names, places);
    lemma_ascending(again, places_again);
    assert forall|x: Seq<u8>| #[trigger]
        ordered(names, places).contains(x) <==> ordered(again, places_again).contains(x) by {
        assert(names.contains(x) <==> again.contains(x));
    }
    lemma_same_ascending(ordered(names, places), ordered(again, places_again));
}

/// Whether one byte string stands before another.
pub fn is_before(a: &[u8], b: &[u8]) -> (r: bool)
    ensures
        r == stands_before(a@, b@),
{
    let mut i: usize = 0;
    proof {
        assert(a@.skip(0) == a@);
        assert(b@.skip(0) == b@);
    }
    while i < a.len() && i < b.len()
        invariant
            i <= a@.len(),
            i <= b@.len(),
            stands_before(a@, b@) == stands_before(a@.skip(i as int), b@.skip(i as int)),
        decreases a@.len() - i,
    {
        if a[i] != b[i] {
            return a[i] < b[i];
        }
        proof {
            assert(a@.skip(i as int).skip(1) == a@.skip(i as int + 1));
            assert(b@.skip(i as int).skip(1) == b@.skip(i as int + 1));
        }
        i += 1;
    }
    i < b.len()
}

/// The views of a list of names.
pub open spec fn name_views(names: Seq<Vec<u8>>) -> Seq<Seq<u8>> {
    names.map_values(|n: Vec<u8>| n@)
}

/// Places as integers.
pub open spec fn ints(places: Seq<usize>) -> Seq<int> {
    places.map_values(|p: usize| p as int)
}

/// Whether these places all lie in a range.
pub open spec fn within(places: Seq<int>, low: int, high: int) -> bool {
    forall|a: int| 0 <= a < places.len() ==> low <= #[trigger] places[a] < high
}

/// Merges two lists, the places of the first being the smaller ones.
fn merge(
    names: &Vec<Vec<u8>>,
    left: &Vec<usize>,
    right: &Vec<usize>,
    Ghost(low): Ghost<int>,
    Ghost(middle): Ghost<int>,
    Ghost(high): Ghost<int>,
) -> (merged: Vec<usize>)
    requires
        0 <= low <= middle <= high <= names@.len(),
        in_order(name_views(names@), ints(left@)),
        in_order(name_views(names@), ints(right@)),
        within(ints(left@), low, middle),
        within(ints(right@), middle, high),
        left@.len() + right@.len() <= usize::MAX,
    ensures
        merged@.len() == left@.len() + right@.len(),
        in_order(name_views(names@), ints(merged@)),
        within(ints(merged@), low, high),
{
    let ghost all = name_views(names@);
    let ghost l = ints(left@);
    let ghost r = ints(right@);
    let mut merged: Vec<usize> = Vec::new();
    let mut i: usize = 0;
    let mut j: usize = 0;
    while i < left.len() || j < right.len()
        invariant
            all == name_views(names@),
            l == ints(left@),
            r == ints(right@),
            0 <= low <= middle <= high <= names@.len(),
            in_order(all, l),
            in_order(all, r),
            within(l, low, middle),
            within(r, middle, high),
            i <= left@.len(),
            j <= right@.len(),
            merged@.len() == i + j,
            left@.len() + right@.len() <= usize::MAX,
            in_order(all, ints(merged@)),
            within(ints(merged@), low, high),
            forall|a: int, b: int|
                0 <= a < merged@.len() && i <= b < l.len() ==> listed_before(
                    all,
                    #[trigger] ints(merged@)[a],
                    #[trigger] l[b],
                ),
            forall|a: int, b: int|
                0 <= a < merged@.len() && j <= b < r.len() ==> listed_before(
                    all,
                    #[trigger] ints(merged@)[a],
                    #[trigger] r[b],
                ),
        decreases left@.len() - i + right@.len() - j,
    {
        let ghost before = ints(merged@);
        proof {
            if i < left@.len() {
                assert(l[i as int] == left@[i as int]);
            }
            if j < right@.len() {
                assert(r[j as int] == right@[j as int]);
            }
        }
        let take_right = if i >= left.len() {
            true
        } else if j >= right.len() {
            false
        } else {
            proof {
                let x = l[i as int];
                let y = r[j as int];
                assert(all[x] == names@[x]@);
                assert(all[y] == names@[y]@);
                lemma_total(all[x], all[y]);
                assert(x < y);
            }
            is_before(names[right[j]].as_slice(), names[left[i]].as_slice())
        };
        if take_right {
            let place = right[j];
            merged.push(place);
            proof {
                let y = r[j as int];
                assert(ints(merged@) == before.push(y));
                assert forall|b: int| i <= b < l.len() implies listed_before(
                    all,
                    y,
                    #[trigger] l[b],
                ) by {
                    if b > i {
                        lemma_listed_transitive(all, y, l[i as int], l[b]);
                    }
                }
            }
            j += 1;
        } else {
            let place = left[i];
            merged.push(place);
            proof {
                let x = l[i as int];
                assert(ints(merged@) == before.push(x));
                assert forall|b: int| j <= b < r.len() implies listed_before(
                    all,
                    x,
                    #[trigger] r[b],
                ) by {
                    if b > j {
                        lemma_listed_transitive(all, x, r[j as int], r[b]);
                    }
                }
            }
            i += 1;
        }
    }
    merged
}

/// The order of the names in a range.
fn order_range(names: &Vec<Vec<u8>>, low: usize, high: usize) -> (places: Vec<usize>)
    requires
        low <= high <= names@.len(),
    ensures
        places@.len() == high - low,
        in_order(name_views(names@), ints(places@)),
        within(ints(places@), low as int, high as int),
    decreases high - low,
{
    if high - low == 0 {
        return Vec::new();
    }
    if high - low == 1 {
        let mut places: Vec<usize> = Vec::new();
        places.push(low);
        return places;
    }
    let middle: usize = low + (high - low) / 2;
    let left = order_range(names, low, middle);
    let right = order_range(names, middle, high);
    merge(
        names,
        &left,
        &right,
        Ghost(low as int),
        Ghost(middle as int),
        Ghost(high as int),
    )
}

/// The order in which the names are listed.
pub fn name_order(names: &Vec<Vec<u8>>) -> (places: Vec<usize>)
    ensures
        is_order(name_views(names@), ints(places@)),
{
    order_range(names, 0, names.len())
}

} // verus!
