//! Putting numbers in order.
use vstd::prelude::*;

verus! {

/// Numbers in ascending order.
pub open spec fn ascending_numbers(values: Seq<u128>) -> bool {
    forall|i: int, j: int| 0 <= i <= j < values.len() ==> #[trigger] values[i] <= #[trigger] values[j]
}

/// `slice::sort` on numbers: ascending order, and the same numbers as before,
/// each as often as before.
#[verifier::external_body]
pub(crate) fn sort_numbers(values: &mut Vec<u128>)
    ensures
        ascending_numbers(final(values)@),
        final(values)@.to_multiset() == old(values)@.to_multiset(),
{
    values.sort();
}

/// The same numbers, each as often, are the same set of numbers.
pub proof fn lemma_same_members(a: Seq<u128>, b: Seq<u128>)
    requires
        a.to_multiset() == b.to_multiset(),
    ensures
        a.len() == b.len(),
        forall|v: u128| #[trigger] a.contains(v) <==> b.contains(v),
{
    broadcast use vstd::seq_lib::group_to_multiset_ensures;

    assert(a.len() == a.to_multiset().len());
    assert(b.len() == b.to_multiset().len());
    assert forall|v: u128| #[trigger] a.contains(v) <==> b.contains(v) by {
        assert(a.contains(v) <==> a.to_multiset().count(v) > 0);
        assert(b.contains(v) <==> b.to_multiset().count(v) > 0);
    }
}

/// Numbers in strictly ascending order.
pub open spec fn strictly_ascending(values: Seq<u128>) -> bool {
    forall|i: int, j: int| 0 <= i < j < values.len() ==> #[trigger] values[i] < #[trigger] values[j]
}

/// Put numbers in order and keep each once.
pub fn distinct_numbers(values: Vec<u128>) -> (distinct: Vec<u128>)
    ensures
        strictly_ascending(distinct@),
        forall|v: u128| #[trigger] distinct@.contains(v) <==> values@.contains(v),
{
    let ghost given = values@;
    let mut sorted: Vec<u128> = values;
    sort_numbers(&mut sorted);
    proof {
        lemma_same_members(given, sorted@);
    }
    let mut distinct: Vec<u128> = Vec::new();
    for i in 0..sorted.len()
        invariant
            ascending_numbers(sorted@),
            strictly_ascending(distinct@),
            i == 0 ==> distinct@.len() == 0,
            i > 0 ==> distinct@.len() > 0 && distinct@.last() == sorted@[i - 1],
            forall|v: u128| #[trigger]
                distinct@.contains(v) <==> sorted@.take(i as int).contains(v),
    {
        let value: u128 = sorted[i];
        let ghost held = distinct@;
        let ghost before = sorted@.take(i as int);
        assert(i > 0 ==> sorted@[i - 1] <= sorted@[i as int]);
        if i == 0 || sorted[i - 1] != value {
            distinct.push(value);
            assert forall|a: int, b: int| 0 <= a < b < distinct@.len() implies #[trigger] distinct@[a]
                < #[trigger] distinct@[b] by {
                if b == held.len() && a < held.len() - 1 {
                    assert(held[a] < held[held.len() - 1]);
                }
            }
        } else {
            assert(held[held.len() - 1] == value);
        }
        assert(sorted@.take(i + 1) =~= before.push(value));
        assert forall|v: u128| #[trigger]
            distinct@.contains(v) <==> sorted@.take(i + 1).contains(v) by {
            lemma_pushed_number(before, value, v);
            lemma_pushed_number(held, value, v);
            assert(held.contains(v) <==> before.contains(v));
        }
    }
    assert(sorted@.take(sorted@.len() as int) =~= sorted@);
    distinct
}

proof fn lemma_pushed_number(list: Seq<u128>, added: u128, v: u128)
    ensures
        list.push(added).contains(v) <==> list.contains(v) || v == added,
{
    let grown = list.push(added);
    if grown.contains(v) {
        let k = choose|k: int| 0 <= k < grown.len() && grown[k] == v;
        if k < list.len() {
            assert(list[k] == v);
        }
    }
    if list.contains(v) {
        let k = choose|k: int| 0 <= k < list.len() && list[k] == v;
        assert(grown[k] == v);
    }
    if v == added {
        assert(grown[list.len() as int] == v);
    }
}

/// The members of two ascending lists, apart and shared.
#[derive(Debug)]
pub struct Comparison {
    pub only_a: Vec<u128>,
    pub only_b: Vec<u128>,
    pub both: Vec<u128>,
}

/// A list holds, in ascending order, the members of the first `i` of a list that
/// another list has, or those that it has not.
pub open spec fn selected(list: Seq<u128>, a: Seq<u128>, i: int, b: Seq<u128>, shared: bool) -> bool {
    &&& strictly_ascending(list)
    &&& forall|v: u128| #[trigger]
        list.contains(v) <==> a.take(i).contains(v) && b.contains(v) == shared
}

proof fn lemma_select(
    list: Seq<u128>,
    a: Seq<u128>,
    i: int,
    b: Seq<u128>,
    shared: bool,
)
    requires
        strictly_ascending(a),
        0 <= i < a.len(),
        selected(list, a, i, b, shared),
    ensures
        b.contains(a[i]) == shared ==> selected(list.push(a[i]), a, i + 1, b, shared),
        b.contains(a[i]) != shared ==> selected(list, a, i + 1, b, shared),
{
    let v = a[i];
    assert(a.take(i + 1) =~= a.take(i).push(v));
    assert forall|w: u128| #[trigger] a.take(i + 1).contains(w) <==> a.take(i).contains(w) || w
        == v by {
        lemma_pushed_number(a.take(i), v, w);
    }
    if b.contains(v) == shared {
        let grown = list.push(v);
        assert forall|w: u128| #[trigger] grown.contains(w) <==> list.contains(w) || w == v by {
            lemma_pushed_number(list, v, w);
        }
        assert forall|x: int, y: int| 0 <= x < y < grown.len() implies #[trigger] grown[x]
            < #[trigger] grown[y] by {
            if y == list.len() {
                assert(list.contains(list[x]));
                let k = choose|k: int| 0 <= k < a.take(i).len() && a.take(i)[k] == list[x];
                assert(a[k] < a[i]);
            }
        }
    }
}

proof fn lemma_not_in(b: Seq<u128>, j: int, v: u128)
    requires
        strictly_ascending(b),
        0 <= j <= b.len(),
        forall|k: int| 0 <= k < j ==> #[trigger] b[k] < v,
        j < b.len() ==> v < b[j],
    ensures
        !b.contains(v),
{
    if b.contains(v) {
        let k = choose|k: int| 0 <= k < b.len() && b[k] == v;
        if k > j {
            assert(b[j] < b[k]);
        }
    }
}

/// Compare two ascending lists.
pub fn compare_numbers(a: &Vec<u128>, b: &Vec<u128>) -> (c: Comparison)
    requires
        strictly_ascending(a@),
        strictly_ascending(b@),
    ensures
        selected(c.only_a@, a@, a@.len() as int, b@, false),
        selected(c.only_b@, b@, b@.len() as int, a@, false),
        selected(c.both@, a@, a@.len() as int, b@, true),
{
    let mut only_a: Vec<u128> = Vec::new();
    let mut only_b: Vec<u128> = Vec::new();
    let mut both: Vec<u128> = Vec::new();
    let mut i: usize = 0;
    let mut j: usize = 0;
    while i < a.len() || j < b.len()
        invariant
            strictly_ascending(a@),
            strictly_ascending(b@),
            i <= a@.len(),
            j <= b@.len(),
            selected(only_a@, a@, i as int, b@, false),
            selected(only_b@, b@, j as int, a@, false),
            selected(both@, a@, i as int, b@, true),
            forall|k: int| 0 <= k < j && i < a@.len() ==> #[trigger] b@[k] < a@[i as int],
            forall|k: int| 0 <= k < i && j < b@.len() ==> #[trigger] a@[k] < b@[j as int],
        decreases a@.len() - i + b@.len() - j,
    {
        if j >= b.len() || (i < a.len() && a[i] < b[j]) {
            proof {
                lemma_not_in(b@, j as int, a@[i as int]);
                lemma_select(only_a@, a@, i as int, b@, false);
                lemma_select(both@, a@, i as int, b@, true);
                assert(i + 1 < a@.len() ==> a@[i as int] < a@[i + 1]);
            }
            only_a.push(a[i]);
            i = i + 1;
        } else if i >= a.len() || b[j] < a[i] {
            proof {
                lemma_not_in(a@, i as int, b@[j as int]);
                lemma_select(only_b@, b@, j as int, a@, false);
                assert(j + 1 < b@.len() ==> b@[j as int] < b@[j + 1]);
            }
            only_b.push(b[j]);
            j = j + 1;
        } else {
            proof {
                assert(a@[i as int] == b@[j as int]);
                assert(b@.contains(a@[i as int]));
                assert(a@.contains(b@[j as int]));
                lemma_select(only_a@, a@, i as int, b@, false);
                lemma_select(both@, a@, i as int, b@, true);
                lemma_select(only_b@, b@, j as int, a@, false);
                assert(i + 1 < a@.len() ==> a@[i as int] < a@[i + 1]);
                assert(j + 1 < b@.len() ==> b@[j as int] < b@[j + 1]);
            }
            both.push(a[i]);
            i = i + 1;
            j = j + 1;
        }
    }
    Comparison { only_a, only_b, both }
}

/// Numbers in strictly ascending order are each below all that follow.
pub proof fn lemma_strictly_ascending(values: Seq<u128>, i: int, j: int)
    requires
        strictly_ascending(values),
        0 <= i < j < values.len(),
    ensures
        values[i] < values[j],
{
}

} // verus!
