//! Families: one name, one help text, and a metric for each label set.
use crate::metrics::exposition::{
    header_lines, header_text, label_block, label_block_text, push_sample, sample_line, slice_texts,
};
use crate::metrics::value::{total, Counter, Gauge, Histogram, Metric};
use crate::text::{
    decimal, decimal_text, has_part, joined, lemma_beginning, lemma_is_suffix, lemma_part_stays,
    lemma_text_order_total, lemma_text_order_transitive, same_text, signed_decimal,
    signed_decimal_text, text_before, text_lt, texts,
};
use vstd::prelude::*;

verus! {

/// A label set.
pub type Labels = Seq<Seq<char>>;

/// The order of label sets: by the first value in which they differ.
pub open spec fn labels_lt(a: Labels, b: Labels) -> bool
    decreases a.len(),
{
    if b.len() == 0 {
        false
    } else if a.len() == 0 {
        true
    } else if a[0] != b[0] {
        text_lt(a[0], b[0])
    } else {
        labels_lt(a.drop_first(), b.drop_first())
    }
}

proof fn lemma_labels_total(a: Labels, b: Labels)
    ensures
        labels_lt(a, b) || labels_lt(b, a) || a == b,
        !(labels_lt(a, b) && labels_lt(b, a)),
    decreases a.len(),
{
    if a.len() == 0 || b.len() == 0 {
        assert(a.len() == 0 && b.len() == 0 ==> a =~= b);
    } else {
        lemma_text_order_total(a[0], b[0]);
        if a[0] == b[0] {
            lemma_labels_total(a.drop_first(), b.drop_first());
            if a.drop_first() == b.drop_first() {
                assert(a =~= seq![a[0]] + a.drop_first());
                assert(b =~= seq![b[0]] + b.drop_first());
            }
        }
    }
}

proof fn lemma_labels_transitive(a: Labels, b: Labels, c: Labels)
    requires
        labels_lt(a, b),
        labels_lt(b, c),
    ensures
        labels_lt(a, c),
    decreases a.len(),
{
    if a.len() > 0 {
        lemma_text_order_total(a[0], b[0]);
        lemma_text_order_total(b[0], c[0]);
        if a[0] == b[0] && b[0] == c[0] {
            lemma_labels_transitive(a.drop_first(), b.drop_first(), c.drop_first());
        } else if a[0] != b[0] && b[0] != c[0] {
            lemma_text_order_transitive(a[0], b[0], c[0]);
            lemma_text_order_total(a[0], c[0]);
        }
    }
}

fn labels_before(a: &Vec<String>, b: &Vec<String>) -> (before: bool)
    ensures
        before == labels_lt(texts(a@), texts(b@)),
{
    let ghost ta = texts(a@);
    let ghost tb = texts(b@);
    let mut i: usize = 0;
    proof {
        assert(ta.skip(0) =~= ta);
        assert(tb.skip(0) =~= tb);
    }
    loop
        invariant
            ta == texts(a@),
            tb == texts(b@),
            i <= a@.len(),
            i <= b@.len(),
            labels_lt(ta, tb) == labels_lt(ta.skip(i as int), tb.skip(i as int)),
        decreases a@.len() - i,
    {
        if i >= b.len() {
            return false;
        }
        if i >= a.len() {
            return true;
        }
        proof {
            assert(ta.skip(i as int)[0] == ta[i as int]);
            assert(tb.skip(i as int)[0] == tb[i as int]);
            assert(ta.skip(i as int).drop_first() =~= ta.skip(i + 1));
            assert(tb.skip(i as int).drop_first() =~= tb.skip(i + 1));
        }
        if !same_text(a[i].as_str(), b[i].as_str()) {
            return text_before(a[i].as_str(), b[i].as_str());
        }
        i = i + 1;
    }
}

/// Put place `i` into an order of places, behind all that do not come later.
pub open spec fn put_in_order(order: Seq<int>, keys: Seq<Labels>, i: int) -> Seq<int>
    decreases order.len(),
{
    if order.len() == 0 {
        seq![i]
    } else if labels_lt(keys[i], keys[order.last()]) {
        put_in_order(order.drop_last(), keys, i).push(order.last())
    } else {
        order.push(i)
    }
}

/// The places of the first `n` label sets in the order of the sets.
pub open spec fn sorted_places(keys: Seq<Labels>, n: nat) -> Seq<int>
    decreases n,
{
    if n == 0 {
        Seq::empty()
    } else {
        put_in_order(sorted_places(keys, (n - 1) as nat), keys, n - 1)
    }
}

/// The place of a label set.
pub open spec fn place_of_labels(keys: Seq<Labels>, wanted: Labels) -> Option<nat>
    decreases keys.len(),
{
    if keys.len() == 0 {
        None
    } else if keys.last() == wanted {
        Some((keys.len() - 1) as nat)
    } else {
        place_of_labels(keys.drop_last(), wanted)
    }
}

/// A label set has a place exactly when it is among the sets, and is found there.
proof fn lemma_place_of_labels(keys: Seq<Labels>, wanted: Labels)
    ensures
        match place_of_labels(keys, wanted) {
            Some(i) => i < keys.len() && keys[i as int] == wanted,
            None => !keys.contains(wanted),
        },
    decreases keys.len(),
{
    if keys.len() > 0 {
        let front = keys.drop_last();
        lemma_place_of_labels(front, wanted);
        if place_of_labels(keys, wanted) is None && keys.contains(wanted) {
            let k = choose|k: int| 0 <= k < keys.len() && keys[k] == wanted;
            assert(front[k] == wanted);
        }
    }
}

/// A metric family: one name, one help string, and a metric per label set.
#[derive(Debug)]
pub struct Family<M> {
    name: &'static str,
    help: &'static str,
    label_names: &'static [&'static str],
    /// The label sets seen so far, and the metric of each.
    labels: Vec<Vec<String>>,
    children: Vec<M>,
    /// What the metric of a new label set is made like.
    template: M,
}

/// The texts of label sets.
pub open spec fn label_sets(labels: Seq<Vec<String>>) -> Seq<Labels> {
    Seq::new(labels.len(), |i: int| texts(labels[i]@))
}

impl<M: Metric> Family<M> {
    /// A family without label sets.
    pub fn new(
        name: &'static str,
        help: &'static str,
        label_names: &'static [&'static str],
        template: M,
    ) -> (family: Family<M>)
        ensures
            family.wf(),
            family.spec_name() == name@,
            family.spec_help() == help@,
            family.spec_label_names() == slice_texts(label_names@),
            family.spec_template() == template,
            family.keys() == Seq::<Labels>::empty(),
            family.spec_children() == Seq::<M>::empty(),
    {
        let family = Family {
            name,
            help,
            label_names,
            labels: Vec::new(),
            children: Vec::new(),
            template,
        };
        assert(family.keys() =~= Seq::<Labels>::empty());
        assert(family.spec_children() =~= Seq::<M>::empty());
        family
    }

    fn find(&self, labels: &[&str]) -> (found: Option<usize>)
        ensures
            match found {
                Some(i) => i < self.labels@.len() && place_of_labels(
                    self.keys(),
                    slice_texts(labels@),
                ) == Some(i as nat),
                None => place_of_labels(self.keys(), slice_texts(labels@)) is None,
            },
    {
        let ghost wanted = slice_texts(labels@);
        let ghost all = self.keys();
        let mut i: usize = self.labels.len();
        assert(all.take(i as int) =~= all);
        while i > 0
            invariant
                i <= self.labels@.len(),
                all == self.keys(),
                wanted == slice_texts(labels@),
                place_of_labels(all, wanted) == place_of_labels(all.take(i as int), wanted),
            decreases i,
        {
            proof {
                assert(all.take(i as int).last() == all[i - 1]);
                assert(all.take(i as int).drop_last() =~= all.take(i - 1));
            }
            if same_labels(&self.labels[i - 1], labels) {
                return Some(i - 1);
            }
            i = i - 1;
        }
        None
    }

    /// The metric of a label set, made when the set is first seen. The labels
    /// line up with the label names.
    pub fn with(&mut self, labels: &[&str]) -> (child: &mut M)
        requires
            old(self).wf(),
            labels@.len() == old(self).spec_label_names().len(),
        ensures
            final(self).wf(),
            final(self).spec_name() == old(self).spec_name(),
            final(self).spec_help() == old(self).spec_help(),
            final(self).spec_label_names() == old(self).spec_label_names(),
            final(self).spec_template() == old(self).spec_template(),
            match place_of_labels(old(self).keys(), slice_texts(labels@)) {
                Some(i) => {
                    &&& i < old(self).spec_children().len()
                    &&& *child == old(self).spec_children()[i as int]
                    &&& final(self).keys() == old(self).keys()
                    &&& final(self).spec_children() == old(self).spec_children().update(
                        i as int,
                        *final(child),
                    )
                },
                None => {
                    &&& child.is_fresh_like(&old(self).spec_template())
                    &&& final(self).keys() == old(self).keys().push(slice_texts(labels@))
                    &&& final(self).spec_children() == old(self).spec_children().push(
                        *final(child),
                    )
                },
            },
    {
        let ghost before = self.keys();
        let ghost children = self.children@;
        proof {
            lemma_place_of_labels(before, slice_texts(labels@));
        }
        match self.find(labels) {
            Some(i) => {
                &mut self.children[i]
            },
            None => {
                let n: usize = self.children.len();
                let mut key: Vec<String> = Vec::with_capacity(labels.len());
                for k in 0..labels.len()
                    invariant
                        key@.len() == k,
                        forall|j: int| 0 <= j < k ==> (#[trigger] key@[j])@ == labels@[j]@,
                {
                    key.push(labels[k].to_owned());
                }
                assert(texts(key@) =~= slice_texts(labels@));
                let fresh: M = self.template.fresh();
                self.labels.push(key);
                self.children.push(fresh);
                assert(label_sets(self.labels@) =~= before.push(slice_texts(labels@)));
                assert(before.push(slice_texts(labels@)).no_duplicates());
                assert(self.children@ =~= children.push(fresh));
                &mut self.children[n]
            },
        }
    }

    /// The metric of a family declared without labels.
    pub fn get(&mut self) -> (child: &mut M)
        requires
            old(self).wf(),
            old(self).spec_label_names().len() == 0,
        ensures
            final(self).wf(),
            final(self).spec_name() == old(self).spec_name(),
            final(self).spec_help() == old(self).spec_help(),
            final(self).spec_label_names() == old(self).spec_label_names(),
            final(self).spec_template() == old(self).spec_template(),
            match place_of_labels(old(self).keys(), Seq::empty()) {
                Some(i) => {
                    &&& i < old(self).spec_children().len()
                    &&& *child == old(self).spec_children()[i as int]
                    &&& final(self).keys() == old(self).keys()
                    &&& final(self).spec_children() == old(self).spec_children().update(
                        i as int,
                        *final(child),
                    )
                },
                None => {
                    &&& child.is_fresh_like(&old(self).spec_template())
                    &&& final(self).keys() == old(self).keys().push(Seq::empty())
                    &&& final(self).spec_children() == old(self).spec_children().push(
                        *final(child),
                    )
                },
            },
    {
        let none: [&str; 0] = [];
        assert(slice_texts(none@) =~= Seq::<Seq<char>>::empty());
        self.with(none.as_slice())
    }
}

fn same_labels(a: &Vec<String>, b: &[&str]) -> (same: bool)
    ensures
        same == (texts(a@) == slice_texts(b@)),
{
    let ghost ta = texts(a@);
    let ghost tb = slice_texts(b@);
    if a.len() != b.len() {
        assert(ta.len() != tb.len());
        return false;
    }
    for i in 0..a.len()
        invariant
            ta == texts(a@),
            tb == slice_texts(b@),
            a@.len() == b@.len(),
            forall|k: int| 0 <= k < i ==> ta[k] == tb[k],
    {
        if !same_text(a[i].as_str(), b[i]) {
            assert(ta[i as int] != tb[i as int]);
            return false;
        }
    }
    assert(ta =~= tb);
    true
}

impl<M> Family<M> {
    pub closed spec fn spec_name(&self) -> Seq<char> {
        self.name@
    }

    pub closed spec fn spec_help(&self) -> Seq<char> {
        self.help@
    }

    pub closed spec fn spec_label_names(&self) -> Seq<Seq<char>> {
        slice_texts(self.label_names@)
    }

    pub closed spec fn spec_template(&self) -> M {
        self.template
    }

    /// The label sets seen so far.
    pub closed spec fn keys(&self) -> Seq<Labels> {
        label_sets(self.labels@)
    }

    /// The metrics of the label sets.
    pub closed spec fn spec_children(&self) -> Seq<M> {
        self.children@
    }

    /// There is a metric for each label set, each set has a value for each label,
    /// and no set is there twice.
    pub closed spec fn wf(&self) -> bool {
        &&& self.labels@.len() == self.children@.len()
        &&& self.keys().no_duplicates()
        &&& forall|i: int|
            0 <= i < self.labels@.len() ==> (#[trigger] self.labels@[i])@.len()
                == self.label_names@.len()
    }

    /// There are as many metrics as label sets, and no label set is there twice.
    pub proof fn lemma_sizes(&self)
        requires
            self.wf(),
        ensures
            self.keys().len() == self.spec_children().len(),
            self.keys().no_duplicates(),
            forall|i: int|
                0 <= i < self.keys().len() ==> (#[trigger] self.keys()[i]).len()
                    == self.spec_label_names().len(),
    {
        assert forall|i: int| 0 <= i < self.keys().len() implies (#[trigger] self.keys()[i]).len()
            == self.spec_label_names().len() by {
            assert(self.labels@[i]@.len() == self.label_names@.len());
        }
    }

    /// The places of the label sets, sorted by label values, so that what is
    /// shown does not depend on the order of first use.
    pub fn sorted_children(&self) -> (order: Vec<usize>)
        requires
            self.wf(),
        ensures
            order@.len() == self.keys().len(),
            forall|i: int|
                0 <= i < order@.len() ==> (#[trigger] order@[i]) == sorted_places(
                    self.keys(),
                    self.keys().len(),
                )[i] && order@[i] < self.keys().len(),
            sorted_places(self.keys(), self.keys().len()).len() == self.keys().len(),
    {
        let ghost keys = self.keys();
        let mut order: Vec<usize> = Vec::new();
        for i in 0..self.labels.len()
            invariant
                keys == self.keys(),
                order@.len() == i,
                sorted_places(keys, i as nat).len() == i,
                forall|k: int|
                    0 <= k < i ==> (#[trigger] order@[k]) == sorted_places(keys, i as nat)[k]
                        && order@[k] < i,
        {
            let ghost before = sorted_places(keys, i as nat);
            let ghost held = order@;
            let mut p: usize = i;
            assert(before.take(i as int) =~= before);
            while p > 0 && labels_before(&self.labels[i], &self.labels[order[p - 1]])
                invariant
                    p <= i,
                    i < self.labels@.len(),
                    keys == self.keys(),
                    order@ == held,
                    held.len() == i,
                    before.len() == i,
                    forall|k: int|
                        0 <= k < i ==> (#[trigger] held[k]) == before[k] && held[k] < i,
                    forall|k: int| p <= k < i ==> labels_lt(keys[i as int], keys[#[trigger] before[k]]),
                decreases p,
            {
                assert(held[p - 1] == before[p - 1]);
                p = p - 1;
            }
            proof {
                if p > 0 {
                    assert(held[p - 1] == before[p - 1]);
                }
                lemma_put_in_order(before, keys, i as int, p as int);
            }
            order.insert(p, i);
            assert forall|k: int| 0 <= k < i + 1 implies (#[trigger] order@[k]) == before.insert(
                p as int,
                i as int,
            )[k] && order@[k] < i + 1 by {
                if k < p {
                    assert(order@[k] == held[k]);
                } else if k > p {
                    assert(order@[k] == held[k - 1]);
                }
            }
        }
        order
    }
}

/// Putting a place in order inserts it behind all that do not come later.
proof fn lemma_put_in_order(order: Seq<int>, keys: Seq<Labels>, i: int, p: int)
    requires
        0 <= p <= order.len(),
        forall|k: int| p <= k < order.len() ==> labels_lt(keys[i], keys[#[trigger] order[k]]),
        p > 0 ==> !labels_lt(keys[i], keys[order[p - 1]]),
    ensures
        put_in_order(order, keys, i) == order.insert(p, i),
    decreases order.len(),
{
    let n = order.len() as int;
    if p < n {
        let front = order.drop_last();
        assert(order.last() == order[n - 1]);
        assert forall|k: int| p <= k < front.len() implies labels_lt(
            keys[i],
            keys[#[trigger] front[k]],
        ) by {
            assert(front[k] == order[k]);
        }
        lemma_put_in_order(front, keys, i, p);
        assert(front.insert(p, i).push(order.last()) =~= order.insert(p, i));
    } else {
        assert(order.insert(p, i) =~= order.push(i));
        if n == 0 {
            assert(order.push(i) =~= seq![i]);
        }
    }
}

/// No later place has a smaller label set.
pub open spec fn in_order(order: Seq<int>, keys: Seq<Labels>) -> bool {
    forall|a: int, b: int|
        0 <= a < b < order.len() ==> !labels_lt(keys[#[trigger] order[b]], keys[#[trigger] order[a]])
}

/// Label sets are shown in ascending order, each exactly once.
pub proof fn lemma_sorted_places(keys: Seq<Labels>, n: nat)
    requires
        n <= keys.len(),
    ensures
        in_order(sorted_places(keys, n), keys),
        sorted_places(keys, n).len() == n,
        forall|i: int| 0 <= i < n ==> sorted_places(keys, n).contains(i),
        forall|k: int|
            0 <= k < sorted_places(keys, n).len() ==> 0 <= #[trigger] sorted_places(keys, n)[k] < n,
    decreases n,
{
    if n > 0 {
        let m = (n - 1) as nat;
        let before = sorted_places(keys, m);
        lemma_sorted_places(keys, m);
        lemma_put_keeps_order(before, keys, m as int);
        let after = sorted_places(keys, n);
        assert forall|i: int| 0 <= i < n implies after.contains(i) by {
            if i < m {
                assert(before.contains(i));
            }
        }
    }
}

proof fn lemma_put_keeps_order(order: Seq<int>, keys: Seq<Labels>, i: int)
    requires
        in_order(order, keys),
    ensures
        in_order(put_in_order(order, keys, i), keys),
        put_in_order(order, keys, i).len() == order.len() + 1,
        forall|v: int| #[trigger]
            put_in_order(order, keys, i).contains(v) <==> order.contains(v) || v == i,
        forall|k: int|
            0 <= k < order.len() + 1 ==> (#[trigger] put_in_order(order, keys, i)[k]) == i
                || order.contains(put_in_order(order, keys, i)[k]),
    decreases order.len(),
{
    let after = put_in_order(order, keys, i);
    if order.len() == 0 {
        assert(after[0] == i);
        assert forall|v: int| #[trigger] after.contains(v) <==> order.contains(v) || v == i by {
            if v == i {
                assert(after[0] == v);
            }
        }
    } else if labels_lt(keys[i], keys[order.last()]) {
        let front = order.drop_last();
        let last = order.last();
        let n = order.len() - 1;
        assert forall|a: int, b: int| 0 <= a < b < front.len() implies !labels_lt(
            keys[#[trigger] front[b]],
            keys[#[trigger] front[a]],
        ) by {
            assert(front[a] == order[a] && front[b] == order[b]);
        }
        lemma_put_keeps_order(front, keys, i);
        let inner = put_in_order(front, keys, i);
        assert forall|a: int, b: int| 0 <= a < b < after.len() implies !labels_lt(
            keys[#[trigger] after[b]],
            keys[#[trigger] after[a]],
        ) by {
            if b == inner.len() {
                assert(after[a] == inner[a]);
                if inner[a] == i {
                    lemma_labels_total(keys[i], keys[last]);
                } else {
                    assert(front.contains(inner[a]));
                    let k = choose|k: int| 0 <= k < front.len() && front[k] == inner[a];
                    assert(order[k] == inner[a]);
                    assert(!labels_lt(keys[order[n]], keys[order[k]]));
                }
            } else {
                assert(after[a] == inner[a] && after[b] == inner[b]);
            }
        }
        assert forall|v: int| #[trigger] after.contains(v) <==> order.contains(v) || v == i by {
            if after.contains(v) {
                let k = choose|k: int| 0 <= k < after.len() && after[k] == v;
                if k < inner.len() {
                    assert(inner[k] == v);
                    assert(inner.contains(v));
                    if front.contains(v) {
                        let j = choose|j: int| 0 <= j < front.len() && front[j] == v;
                        assert(order[j] == v);
                    }
                } else {
                    assert(order[n] == v);
                }
            }
            if order.contains(v) || v == i {
                if v == last {
                    assert(after[inner.len() as int] == v);
                } else {
                    if order.contains(v) {
                        let j = choose|j: int| 0 <= j < order.len() && order[j] == v;
                        assert(front[j] == v);
                    }
                    assert(inner.contains(v));
                    let k = choose|k: int| 0 <= k < inner.len() && inner[k] == v;
                    assert(after[k] == v);
                }
            }
        }
        assert forall|k: int| 0 <= k < order.len() + 1 implies (#[trigger] after[k]) == i
            || order.contains(after[k]) by {
            if k < inner.len() {
                assert(after[k] == inner[k]);
                if inner[k] != i {
                    assert(front.contains(inner[k]));
                    let j = choose|j: int| 0 <= j < front.len() && front[j] == inner[k];
                    assert(order[j] == inner[k]);
                }
            } else {
                assert(order[n] == after[k]);
            }
        }
    } else {
        let n = order.len() as int;
        assert forall|a: int, b: int| 0 <= a < b < after.len() implies !labels_lt(
            keys[#[trigger] after[b]],
            keys[#[trigger] after[a]],
        ) by {
            if b == n {
                assert(after[a] == order[a]);
                lemma_labels_total(keys[order[n - 1]], keys[i]);
                if a < n - 1 {
                    assert(!labels_lt(keys[order[n - 1]], keys[order[a]]));
                }
                if labels_lt(keys[i], keys[order[a]]) {
                    if keys[order[n - 1]] != keys[i] {
                        lemma_labels_transitive(keys[order[n - 1]], keys[i], keys[order[a]]);
                        lemma_labels_total(keys[order[n - 1]], keys[order[a]]);
                    }
                }
            } else {
                assert(after[a] == order[a] && after[b] == order[b]);
            }
        }
        assert forall|v: int| #[trigger] after.contains(v) <==> order.contains(v) || v == i by {
            if after.contains(v) {
                let k = choose|k: int| 0 <= k < after.len() && after[k] == v;
                if k < n {
                    assert(order[k] == v);
                }
            }
            if order.contains(v) {
                let k = choose|k: int| 0 <= k < order.len() && order[k] == v;
                assert(after[k] == v);
            }
            if v == i {
                assert(after[n] == v);
            }
        }
    }
}

/// The labels of a family's series.
pub open spec fn series_block<M>(
    f: Family<M>,
    place: int,
    extra: Option<(Seq<char>, Seq<char>)>,
) -> Seq<char> {
    label_block(f.spec_label_names(), f.keys()[place], extra)
}

impl<M> Family<M> {
    fn block(&self, place: usize, extra: Option<(&str, &str)>) -> (text: String)
        requires
            self.wf(),
            place < self.keys().len(),
        ensures
            text@ == series_block(
                *self,
                place as int,
                crate::metrics::exposition::extra_texts(extra),
            ),
    {
        assert(self.labels@[place as int]@.len() == self.label_names@.len());
        label_block_text(self.label_names, &self.labels[place], extra)
    }
}

/// The samples of the first `n` series of a counter family, in order.
pub open spec fn counter_samples(f: Family<Counter>, order: Seq<int>, n: nat) -> Seq<char>
    decreases n,
{
    if n == 0 {
        Seq::empty()
    } else {
        let i = order[n - 1];
        counter_samples(f, order, (n - 1) as nat) + sample_line(
            f.spec_name(),
            series_block(f, i, None),
            decimal(f.spec_children()[i].value as nat),
        )
    }
}

/// What a counter family shows: nothing without series, else the introduction
/// and a sample for each series in the order of the labels.
pub open spec fn counter_text(f: Family<Counter>) -> Seq<char> {
    let n = f.keys().len();
    if n == 0 {
        Seq::empty()
    } else {
        header_lines(f.spec_name(), f.spec_help(), "counter"@) + counter_samples(
            f,
            sorted_places(f.keys(), n),
            n,
        )
    }
}

impl Family<Counter> {
    /// Append what the family shows.
    pub fn encode(&self, out: &mut String)
        requires
            self.wf(),
        ensures
            final(out)@ == old(out)@ + counter_text(*self),
    {
        proof {
            self.lemma_sizes();
        }
        let ghost before = out@;
        let order: Vec<usize> = self.sorted_children();
        let ghost places = sorted_places(self.keys(), self.keys().len());
        if order.len() == 0 {
            assert(out@ =~= before + counter_text(*self));
            return;
        }
        out.append(header_text(self.name, self.help, "counter").as_str());
        let ghost led = out@;
        assert(led + counter_samples(*self, places, 0) =~= led);
        for k in 0..order.len()
            invariant
                self.wf(),
                self.keys().len() == self.spec_children().len(),
                order@.len() == self.keys().len(),
                places == sorted_places(self.keys(), self.keys().len()),
                forall|i: int|
                    0 <= i < order@.len() ==> (#[trigger] order@[i]) == places[i] && order@[i]
                        < self.keys().len(),
                out@ == led + counter_samples(*self, places, k as nat),
        {
            let place: usize = order[k];
            let block: String = self.block(place, None);
            let value: String = decimal_text(self.children[place].get());
            push_sample(out, self.name, block.as_str(), value.as_str());
            assert(out@ =~= led + counter_samples(*self, places, k as nat + 1));
        }
        assert(out@ =~= before + counter_text(*self));
    }
}

/// The samples of the first `n` series of a gauge family, in order.
pub open spec fn gauge_samples(f: Family<Gauge>, order: Seq<int>, n: nat) -> Seq<char>
    decreases n,
{
    if n == 0 {
        Seq::empty()
    } else {
        let i = order[n - 1];
        gauge_samples(f, order, (n - 1) as nat) + sample_line(
            f.spec_name(),
            series_block(f, i, None),
            signed_decimal(f.spec_children()[i].value as int),
        )
    }
}

/// What a gauge family shows.
pub open spec fn gauge_text(f: Family<Gauge>) -> Seq<char> {
    let n = f.keys().len();
    if n == 0 {
        Seq::empty()
    } else {
        header_lines(f.spec_name(), f.spec_help(), "gauge"@) + gauge_samples(
            f,
            sorted_places(f.keys(), n),
            n,
        )
    }
}

impl Family<Gauge> {
    /// Append what the family shows.
    pub fn encode(&self, out: &mut String)
        requires
            self.wf(),
        ensures
            final(out)@ == old(out)@ + gauge_text(*self),
    {
        proof {
            self.lemma_sizes();
        }
        let ghost before = out@;
        let order: Vec<usize> = self.sorted_children();
        let ghost places = sorted_places(self.keys(), self.keys().len());
        if order.len() == 0 {
            assert(out@ =~= before + gauge_text(*self));
            return;
        }
        out.append(header_text(self.name, self.help, "gauge").as_str());
        let ghost led = out@;
        assert(led + gauge_samples(*self, places, 0) =~= led);
        for k in 0..order.len()
            invariant
                self.wf(),
                self.keys().len() == self.spec_children().len(),
                order@.len() == self.keys().len(),
                places == sorted_places(self.keys(), self.keys().len()),
                forall|i: int|
                    0 <= i < order@.len() ==> (#[trigger] order@[i]) == places[i] && order@[i]
                        < self.keys().len(),
                out@ == led + gauge_samples(*self, places, k as nat),
        {
            let place: usize = order[k];
            let block: String = self.block(place, None);
            let value: String = signed_decimal_text(self.children[place].get());
            push_sample(out, self.name, block.as_str(), value.as_str());
            assert(out@ =~= led + gauge_samples(*self, places, k as nat + 1));
        }
        assert(out@ =~= before + gauge_text(*self));
    }
}

/// The observations in the first `i` slots, but no more than there were: a
/// bucket never shows more than the total.
pub open spec fn cumulative(h: Histogram, i: nat) -> nat
    decreases i,
{
    if i == 0 {
        0
    } else {
        let sum = cumulative(h, (i - 1) as nat) + h.counts@[i - 1] as nat;
        if sum < h.count {
            sum
        } else {
            h.count as nat
        }
    }
}

/// The bucket counts that are shown grow from bound to bound, up to the total.
pub proof fn lemma_buckets_are_cumulative(h: Histogram, i: nat)
    ensures
        cumulative(h, i) <= cumulative(h, i + 1) <= h.count,
    decreases i,
{
    if i > 0 {
        lemma_buckets_are_cumulative(h, (i - 1) as nat);
    }
}

/// The first `b` bucket lines of a series.
pub open spec fn bucket_lines(f: Family<Histogram>, place: int, b: nat) -> Seq<char>
    decreases b,
{
    if b == 0 {
        Seq::empty()
    } else {
        let h = f.spec_children()[place];
        bucket_lines(f, place, (b - 1) as nat) + sample_line(
            f.spec_name() + "_bucket"@,
            series_block(f, place, Some(("le"@, h.bounds@[b - 1]@))),
            decimal(cumulative(h, b)),
        )
    }
}

/// The lines of one series of a histogram family: its buckets, the one for all,
/// the sum and the count.
pub open spec fn histogram_lines(f: Family<Histogram>, place: int) -> Seq<char> {
    let h = f.spec_children()[place];
    bucket_lines(f, place, h.bounds@.len()) + sample_line(
        f.spec_name() + "_bucket"@,
        series_block(f, place, Some(("le"@, "+Inf"@))),
        decimal(h.count as nat),
    ) + sample_line(f.spec_name() + "_sum"@, series_block(f, place, None), h.sum@) + sample_line(
        f.spec_name() + "_count"@,
        series_block(f, place, None),
        decimal(h.count as nat),
    )
}

/// The lines of the first `n` series of a histogram family, in order.
pub open spec fn histogram_samples(f: Family<Histogram>, order: Seq<int>, n: nat) -> Seq<char>
    decreases n,
{
    if n == 0 {
        Seq::empty()
    } else {
        histogram_samples(f, order, (n - 1) as nat) + histogram_lines(f, order[n - 1])
    }
}

/// What a histogram family shows.
pub open spec fn histogram_text(f: Family<Histogram>) -> Seq<char> {
    let n = f.keys().len();
    if n == 0 {
        Seq::empty()
    } else {
        header_lines(f.spec_name(), f.spec_help(), "histogram"@) + histogram_samples(
            f,
            sorted_places(f.keys(), n),
            n,
        )
    }
}

/// All histograms of a family have a slot for each bound and one more.
pub open spec fn histograms_wf(f: Family<Histogram>) -> bool {
    forall|i: int| 0 <= i < f.spec_children().len() ==> (#[trigger] f.spec_children()[i]).wf()
}

impl Family<Histogram> {
    fn encode_series(&self, place: usize, out: &mut String)
        requires
            self.wf(),
            histograms_wf(*self),
            place < self.keys().len(),
            self.keys().len() == self.spec_children().len(),
        ensures
            final(out)@ == old(out)@ + histogram_lines(*self, place as int),
    {
        let ghost before = out@;
        let h: &Histogram = &self.children[place];
        assert(*h == self.spec_children()[place as int]);
        assert(h.wf());
        let total: u64 = h.count();
        let bucket: String = joined(self.name, "_bucket");
        let mut sum: u64 = 0;
        assert(before + bucket_lines(*self, place as int, 0) =~= before);
        for b in 0..h.bounds.len()
            invariant
                self.wf(),
                place < self.keys().len(),
                *h == self.spec_children()[place as int],
                h.wf(),
                total == h.count,
                bucket@ == self.spec_name() + "_bucket"@,
                sum == cumulative(*h, b as nat),
                sum <= total,
                out@ == before + bucket_lines(*self, place as int, b as nat),
        {
            let more: u64 = h.counts[b];
            sum = if more < total - sum { sum + more } else { total };
            assert(sum == cumulative(*h, b as nat + 1));
            let block: String = self.block(place, Some(("le", h.bounds[b].as_str())));
            push_sample(out, bucket.as_str(), block.as_str(), decimal_text(sum).as_str());
            assert(out@ =~= before + bucket_lines(*self, place as int, b as nat + 1));
        }
        let all: String = self.block(place, Some(("le", "+Inf")));
        let block: String = self.block(place, None);
        let shown: String = decimal_text(total);
        push_sample(out, bucket.as_str(), all.as_str(), shown.as_str());
        push_sample(out, joined(self.name, "_sum").as_str(), block.as_str(), h.sum.as_str());
        push_sample(out, joined(self.name, "_count").as_str(), block.as_str(), shown.as_str());
        assert(out@ =~= before + histogram_lines(*self, place as int));
    }

    /// Append what the family shows.
    pub fn encode(&self, out: &mut String)
        requires
            self.wf(),
            histograms_wf(*self),
        ensures
            final(out)@ == old(out)@ + histogram_text(*self),
    {
        proof {
            self.lemma_sizes();
        }
        let ghost before = out@;
        let order: Vec<usize> = self.sorted_children();
        let ghost places = sorted_places(self.keys(), self.keys().len());
        if order.len() == 0 {
            assert(out@ =~= before + histogram_text(*self));
            return;
        }
        out.append(header_text(self.name, self.help, "histogram").as_str());
        let ghost led = out@;
        assert(led + histogram_samples(*self, places, 0) =~= led);
        for k in 0..order.len()
            invariant
                self.wf(),
                histograms_wf(*self),
                self.keys().len() == self.spec_children().len(),
                order@.len() == self.keys().len(),
                places == sorted_places(self.keys(), self.keys().len()),
                forall|i: int|
                    0 <= i < order@.len() ==> (#[trigger] order@[i]) == places[i] && order@[i]
                        < self.keys().len(),
                out@ == led + histogram_samples(*self, places, k as nat),
        {
            self.encode_series(order[k], out);
            assert(out@ =~= led + histogram_samples(*self, places, k as nat + 1));
        }
        assert(out@ =~= before + histogram_text(*self));
    }
}

/// Label sets are ordered by the first value in which they differ.
pub proof fn lemma_first_value_orders(lead: Labels, c: Seq<char>, d: Seq<char>, x: Labels, y: Labels)
    requires
        text_lt(c, d),
    ensures
        labels_lt(lead + seq![c] + x, lead + seq![d] + y),
    decreases lead.len(),
{
    let a = lead + seq![c] + x;
    let b = lead + seq![d] + y;
    if lead.len() > 0 {
        let rest = lead.drop_first();
        lemma_first_value_orders(rest, c, d, x, y);
        assert(a.drop_first() =~= rest + seq![c] + x);
        assert(b.drop_first() =~= rest + seq![d] + y);
        assert(a[0] == lead[0] && b[0] == lead[0]);
    } else {
        lemma_text_order_total(c, d);
        assert(a[0] == c && b[0] == d);
    }
}

/// Each series' lines stand among the samples, directly behind those of the series
/// before it, and nothing else does.
pub proof fn lemma_counter_series_follow(f: Family<Counter>, order: Seq<int>, k: nat, n: nat)
    requires
        k < n,
    ensures
        counter_samples(f, order, 0).len() == 0,
        counter_samples(f, order, k + 1).len() == counter_samples(f, order, k).len() + sample_line(
            f.spec_name(),
            series_block(f, order[k as int], None),
            decimal(f.spec_children()[order[k as int]].value as nat),
        ).len(),
        counter_samples(f, order, k + 1).len() <= counter_samples(f, order, n).len(),
        counter_samples(f, order, n).subrange(
            counter_samples(f, order, k).len() as int,
            counter_samples(f, order, k + 1).len() as int,
        ) == sample_line(
            f.spec_name(),
            series_block(f, order[k as int], None),
            decimal(f.spec_children()[order[k as int]].value as nat),
        ),
    decreases n,
{
    let before = counter_samples(f, order, k).len() as int;
    let behind = counter_samples(f, order, k + 1).len() as int;
    let all = counter_samples(f, order, n);
    if k + 1 < n {
        let front = counter_samples(f, order, (n - 1) as nat);
        lemma_counter_series_follow(f, order, k, (n - 1) as nat);
        assert(all.subrange(before, behind) =~= front.subrange(before, behind));
    } else {
        assert(all.subrange(before, behind) =~= sample_line(
            f.spec_name(),
            series_block(f, order[k as int], None),
            decimal(f.spec_children()[order[k as int]].value as nat),
        ));
    }
}

/// Every series of a family is shown, with its own value.
pub proof fn lemma_every_counter_is_shown(f: Family<Counter>, place: int)
    requires
        0 <= place < f.keys().len(),
    ensures
        has_part(counter_text(f), sample_line(
            f.spec_name(),
            series_block(f, place, None),
            decimal(f.spec_children()[place].value as nat),
        )),
        header_lines(f.spec_name(), f.spec_help(), "counter"@).is_prefix_of(counter_text(f)),
{
    let n = f.keys().len();
    let order = sorted_places(f.keys(), n);
    lemma_sorted_places(f.keys(), n);
    assert(order.contains(place));
    let k = choose|k: int| 0 <= k < order.len() && order[k] == place;
    lemma_counter_series_follow(f, order, k as nat, n);
    let head = header_lines(f.spec_name(), f.spec_help(), "counter"@);
    let samples = counter_samples(f, order, n);
    let before = counter_samples(f, order, k as nat).len() as int;
    let line = sample_line(
            f.spec_name(),
            series_block(f, place, None),
            decimal(f.spec_children()[place].value as nat),
        );
    assert(samples.subrange(before, before + line.len()) == line);
    assert(counter_text(f) =~= head + samples + Seq::<char>::empty());
    lemma_part_stays(head, samples, Seq::<char>::empty(), line);
    assert(head =~= counter_text(f).subrange(0, head.len() as int));
}

/// Each series' lines stand among the samples, directly behind those of the series
/// before it, and nothing else does.
pub proof fn lemma_gauge_series_follow(f: Family<Gauge>, order: Seq<int>, k: nat, n: nat)
    requires
        k < n,
    ensures
        gauge_samples(f, order, 0).len() == 0,
        gauge_samples(f, order, k + 1).len() == gauge_samples(f, order, k).len() + sample_line(
            f.spec_name(),
            series_block(f, order[k as int], None),
            signed_decimal(f.spec_children()[order[k as int]].value as int),
        ).len(),
        gauge_samples(f, order, k + 1).len() <= gauge_samples(f, order, n).len(),
        gauge_samples(f, order, n).subrange(
            gauge_samples(f, order, k).len() as int,
            gauge_samples(f, order, k + 1).len() as int,
        ) == sample_line(
            f.spec_name(),
            series_block(f, order[k as int], None),
            signed_decimal(f.spec_children()[order[k as int]].value as int),
        ),
    decreases n,
{
    let before = gauge_samples(f, order, k).len() as int;
    let behind = gauge_samples(f, order, k + 1).len() as int;
    let all = gauge_samples(f, order, n);
    if k + 1 < n {
        let front = gauge_samples(f, order, (n - 1) as nat);
        lemma_gauge_series_follow(f, order, k, (n - 1) as nat);
        assert(all.subrange(before, behind) =~= front.subrange(before, behind));
    } else {
        assert(all.subrange(before, behind) =~= sample_line(
            f.spec_name(),
            series_block(f, order[k as int], None),
            signed_decimal(f.spec_children()[order[k as int]].value as int),
        ));
    }
}

/// Every series of a family is shown, with its own value.
pub proof fn lemma_every_gauge_is_shown(f: Family<Gauge>, place: int)
    requires
        0 <= place < f.keys().len(),
    ensures
        has_part(gauge_text(f), sample_line(
            f.spec_name(),
            series_block(f, place, None),
            signed_decimal(f.spec_children()[place].value as int),
        )),
        header_lines(f.spec_name(), f.spec_help(), "gauge"@).is_prefix_of(gauge_text(f)),
{
    let n = f.keys().len();
    let order = sorted_places(f.keys(), n);
    lemma_sorted_places(f.keys(), n);
    assert(order.contains(place));
    let k = choose|k: int| 0 <= k < order.len() && order[k] == place;
    lemma_gauge_series_follow(f, order, k as nat, n);
    let head = header_lines(f.spec_name(), f.spec_help(), "gauge"@);
    let samples = gauge_samples(f, order, n);
    let before = gauge_samples(f, order, k as nat).len() as int;
    let line = sample_line(
            f.spec_name(),
            series_block(f, place, None),
            signed_decimal(f.spec_children()[place].value as int),
        );
    assert(samples.subrange(before, before + line.len()) == line);
    assert(gauge_text(f) =~= head + samples + Seq::<char>::empty());
    lemma_part_stays(head, samples, Seq::<char>::empty(), line);
    assert(head =~= gauge_text(f).subrange(0, head.len() as int));
}

/// Each series' lines stand among the samples, directly behind those of the series
/// before it, and nothing else does.
pub proof fn lemma_histogram_series_follow(f: Family<Histogram>, order: Seq<int>, k: nat, n: nat)
    requires
        k < n,
    ensures
        histogram_samples(f, order, 0).len() == 0,
        histogram_samples(f, order, k + 1).len() == histogram_samples(f, order, k).len() + histogram_lines(f, order[k as int]).len(),
        histogram_samples(f, order, k + 1).len() <= histogram_samples(f, order, n).len(),
        histogram_samples(f, order, n).subrange(
            histogram_samples(f, order, k).len() as int,
            histogram_samples(f, order, k + 1).len() as int,
        ) == histogram_lines(f, order[k as int]),
    decreases n,
{
    let before = histogram_samples(f, order, k).len() as int;
    let behind = histogram_samples(f, order, k + 1).len() as int;
    let all = histogram_samples(f, order, n);
    if k + 1 < n {
        let front = histogram_samples(f, order, (n - 1) as nat);
        lemma_histogram_series_follow(f, order, k, (n - 1) as nat);
        assert(all.subrange(before, behind) =~= front.subrange(before, behind));
    } else {
        assert(all.subrange(before, behind) =~= histogram_lines(f, order[k as int]));
    }
}

/// Every series of a family is shown, with its own value.
pub proof fn lemma_every_histogram_is_shown(f: Family<Histogram>, place: int)
    requires
        0 <= place < f.keys().len(),
    ensures
        has_part(histogram_text(f), histogram_lines(f, place)),
        header_lines(f.spec_name(), f.spec_help(), "histogram"@).is_prefix_of(histogram_text(f)),
{
    let n = f.keys().len();
    let order = sorted_places(f.keys(), n);
    lemma_sorted_places(f.keys(), n);
    assert(order.contains(place));
    let k = choose|k: int| 0 <= k < order.len() && order[k] == place;
    lemma_histogram_series_follow(f, order, k as nat, n);
    let head = header_lines(f.spec_name(), f.spec_help(), "histogram"@);
    let samples = histogram_samples(f, order, n);
    let before = histogram_samples(f, order, k as nat).len() as int;
    let line = histogram_lines(f, place);
    assert(samples.subrange(before, before + line.len()) == line);
    assert(histogram_text(f) =~= head + samples + Seq::<char>::empty());
    lemma_part_stays(head, samples, Seq::<char>::empty(), line);
    assert(head =~= histogram_text(f).subrange(0, head.len() as int));
}

/// A bucket shows all observations up to its bound: those of its own slot and of
/// all slots before it, but never more than there were in all.
pub proof fn lemma_buckets_count_all_up_to_their_bound(h: Histogram, i: nat)
    requires
        i <= h.counts@.len(),
    ensures
        total(h.counts@.take(i as int)) <= h.count ==> cumulative(h, i) == total(
            h.counts@.take(i as int),
        ),
        total(h.counts@.take(i as int)) > h.count ==> cumulative(h, i) == h.count,
    decreases i,
{
    if i > 0 {
        let taken = h.counts@.take(i as int);
        lemma_buckets_count_all_up_to_their_bound(h, (i - 1) as nat);
        assert(taken.drop_last() =~= h.counts@.take(i - 1));
        assert(taken.last() == h.counts@[i - 1]);
    } else {
        assert(h.counts@.take(0) =~= Seq::<u64>::empty());
    }
}

/// The buckets of a series stand one behind the other, a line for each bound.
pub proof fn lemma_buckets_follow(f: Family<Histogram>, place: int, k: nat, b: nat)
    requires
        k < b,
    ensures
        bucket_lines(f, place, 0).len() == 0,
        bucket_lines(f, place, k + 1).len() <= bucket_lines(f, place, b).len(),
        bucket_lines(f, place, b).subrange(
            bucket_lines(f, place, k).len() as int,
            bucket_lines(f, place, k + 1).len() as int,
        ) == sample_line(
            f.spec_name() + "_bucket"@,
            series_block(f, place, Some(("le"@, f.spec_children()[place].bounds@[k as int]@))),
            decimal(cumulative(f.spec_children()[place], k + 1)),
        ),
    decreases b,
{
    let before = bucket_lines(f, place, k).len() as int;
    let behind = bucket_lines(f, place, k + 1).len() as int;
    let all = bucket_lines(f, place, b);
    let line = sample_line(
        f.spec_name() + "_bucket"@,
        series_block(f, place, Some(("le"@, f.spec_children()[place].bounds@[k as int]@))),
        decimal(cumulative(f.spec_children()[place], k + 1)),
    );
    assert(bucket_lines(f, place, k + 1) == bucket_lines(f, place, k) + line);
    if k + 1 < b {
        let front = bucket_lines(f, place, (b - 1) as nat);
        lemma_buckets_follow(f, place, k, (b - 1) as nat);
        assert(all.subrange(before, behind) =~= front.subrange(before, behind));
    } else {
        assert(all.subrange(before, behind) =~= line);
    }
}

/// A series of a histogram family begins with its buckets, and goes on with the
/// bucket for all, the sum and the count.
pub proof fn lemma_histogram_ends_in_sum_and_count(f: Family<Histogram>, place: int)
    ensures
        ({
            let h = f.spec_children()[place];
            let buckets = bucket_lines(f, place, h.bounds@.len());
            let lines = histogram_lines(f, place);
            let all = sample_line(
                f.spec_name() + "_bucket"@,
                series_block(f, place, Some(("le"@, "+Inf"@))),
                decimal(h.count as nat),
            );
            let sum = sample_line(f.spec_name() + "_sum"@, series_block(f, place, None), h.sum@);
            let count = sample_line(
                f.spec_name() + "_count"@,
                series_block(f, place, None),
                decimal(h.count as nat),
            );
            &&& buckets.is_prefix_of(lines)
            &&& has_part(lines, all)
            &&& has_part(lines, sum)
            &&& count.is_suffix_of(lines)
            &&& lines.len() == buckets.len() + all.len() + sum.len() + count.len()
        }),
{
    let h = f.spec_children()[place];
    let buckets = bucket_lines(f, place, h.bounds@.len());
    let lines = histogram_lines(f, place);
    let all = sample_line(
        f.spec_name() + "_bucket"@,
        series_block(f, place, Some(("le"@, "+Inf"@))),
        decimal(h.count as nat),
    );
    let sum = sample_line(f.spec_name() + "_sum"@, series_block(f, place, None), h.sum@);
    let count = sample_line(
        f.spec_name() + "_count"@,
        series_block(f, place, None),
        decimal(h.count as nat),
    );
    assert(lines == buckets + all + sum + count);
    assert(lines =~= lines.subrange(0, lines.len() as int));
    lemma_beginning(buckets + all + sum, count, lines);
    lemma_beginning(buckets + all, sum, lines);
    lemma_beginning(buckets, all, lines);
    lemma_is_suffix(buckets + all + sum, count);
}

/// The labels of a series are the family's names with the series' own values.
pub proof fn lemma_series_has_its_own_labels<M>(
    f: Family<M>,
    place: int,
    extra: Option<(Seq<char>, Seq<char>)>,
)
    ensures
        series_block(f, place, extra) == label_block(f.spec_label_names(), f.keys()[place], extra),
{
}

} // verus!
