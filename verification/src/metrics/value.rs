//! Single metrics: counters, gauges and histograms.
use crate::text::{copied, texts};
use vstd::prelude::*;

verus! {

/// A metric that a family can make a fresh one of.
pub trait Metric: Sized {
    /// The metric is one that has recorded nothing, of the same make as another.
    spec fn is_fresh_like(&self, other: &Self) -> bool;

    /// A metric of the same make that has recorded nothing.
    fn fresh(&self) -> (m: Self)
        ensures
            m.is_fresh_like(self),
    ;
}

/// A count that only goes up. It starts over behind the largest number.
#[derive(Debug, Clone, Copy, PartialEq, Eq, Structural)]
pub struct Counter {
    pub value: u64,
}

impl Default for Counter {
    fn default() -> (c: Self)
        ensures
            c.value == 0,
    {
        Counter { value: 0 }
    }
}

impl Metric for Counter {
    open spec fn is_fresh_like(&self, other: &Self) -> bool {
        self.value == 0
    }

    fn fresh(&self) -> (m: Self) {
        Counter { value: 0 }
    }
}

impl Counter {
    /// Count one.
    pub fn inc(&mut self)
        ensures
            final(self).value == (old(self).value + 1) % 0x1_0000_0000_0000_0000,
    {
        self.add(1);
    }

    /// Count several.
    pub fn add(&mut self, n: u64)
        ensures
            final(self).value == (old(self).value + n) % 0x1_0000_0000_0000_0000,
    {
        let sum: u128 = self.value as u128 + n as u128;
        self.value = (sum % 0x1_0000_0000_0000_0000) as u64;
    }

    /// What was counted.
    pub fn get(&self) -> (value: u64)
        ensures
            value == self.value,
    {
        self.value
    }
}

/// A value that can go up or down.
#[derive(Debug, Clone, Copy, PartialEq, Eq, Structural)]
pub struct Gauge {
    pub value: i64,
}

impl Default for Gauge {
    fn default() -> (g: Self)
        ensures
            g.value == 0,
    {
        Gauge { value: 0 }
    }
}

impl Metric for Gauge {
    open spec fn is_fresh_like(&self, other: &Self) -> bool {
        self.value == 0
    }

    fn fresh(&self) -> (m: Self) {
        Gauge { value: 0 }
    }
}

/// One more; the smallest number follows the largest.
pub open spec fn one_up(value: i64) -> i64 {
    if value == i64::MAX {
        i64::MIN
    } else {
        (value + 1) as i64
    }
}

/// One less; the largest number precedes the smallest.
pub open spec fn one_down(value: i64) -> i64 {
    if value == i64::MIN {
        i64::MAX
    } else {
        (value - 1) as i64
    }
}

impl Gauge {
    /// One up.
    pub fn inc(&mut self)
        ensures
            final(self).value == one_up(old(self).value),
    {
        self.value = if self.value == i64::MAX { i64::MIN } else { self.value + 1 };
    }

    /// One down.
    pub fn dec(&mut self)
        ensures
            final(self).value == one_down(old(self).value),
    {
        self.value = if self.value == i64::MIN { i64::MAX } else { self.value - 1 };
    }

    /// Set the value.
    pub fn set(&mut self, v: i64)
        ensures
            final(self).value == v,
    {
        self.value = v;
    }

    /// The value.
    pub fn get(&self) -> (value: i64)
        ensures
            value == self.value,
    {
        self.value
    }
}

/// A gauge counted up for as long as something lasts.
#[derive(Debug)]
#[non_exhaustive]
pub struct GaugeGuard;

impl GaugeGuard {
    /// Count the gauge up.
    pub fn new(gauge: &mut Gauge) -> (guard: GaugeGuard)
        ensures
            final(gauge).value == one_up(old(gauge).value),
    {
        gauge.inc();
        GaugeGuard
    }

    /// Count the gauge down again.
    pub fn release(self, gauge: &mut Gauge)
        ensures
            final(gauge).value == one_down(old(gauge).value),
    {
        gauge.dec();
    }
}

/// Counting up and down again restores a gauge.
pub proof fn lemma_guard_restores(value: i64)
    ensures
        one_down(one_up(value)) == value,
        one_up(one_down(value)) == value,
{
}

/// A histogram with fixed bucket bounds, in the text in which they are shown.
///
/// Each observation counts in exactly one slot; the cumulative counts are summed
/// up when the histogram is shown. The sum of the observed values is kept as the
/// text in which it is shown.
#[derive(Debug)]
pub struct Histogram {
    pub bounds: Vec<String>,
    /// Observations in each bound's slot, and a last slot for those above all.
    pub counts: Vec<u64>,
    pub count: u64,
    pub sum: String,
}

/// The sum of counts.
pub open spec fn total(counts: Seq<u64>) -> nat
    decreases counts.len(),
{
    if counts.len() == 0 {
        0
    } else {
        total(counts.drop_last()) + counts.last() as nat
    }
}

proof fn lemma_total_of_zeros(counts: Seq<u64>)
    requires
        forall|i: int| 0 <= i < counts.len() ==> (#[trigger] counts[i]) == 0,
    ensures
        total(counts) == 0,
    decreases counts.len(),
{
    if counts.len() > 0 {
        lemma_total_of_zeros(counts.drop_last());
    }
}

proof fn lemma_total_of_update(counts: Seq<u64>, i: int, n: u64)
    requires
        0 <= i < counts.len(),
    ensures
        total(counts.update(i, n)) == total(counts) - counts[i] + n,
    decreases counts.len(),
{
    let after = counts.update(i, n);
    if i == counts.len() - 1 {
        assert(after.drop_last() =~= counts.drop_last());
    } else {
        lemma_total_of_update(counts.drop_last(), i, n);
        assert(after.drop_last() =~= counts.drop_last().update(i, n));
    }
}

impl Histogram {
    /// There is one slot more than there are bounds.
    pub open spec fn wf(&self) -> bool {
        self.counts@.len() == self.bounds@.len() + 1
    }

    /// Each observation is in one slot: the slots add up to the count. All of them
    /// start anew behind the largest number.
    pub open spec fn adds_up(&self) -> bool {
        total(self.counts@) % 0x1_0000_0000_0000_0000 == self.count
    }

    /// Nothing has been observed.
    pub open spec fn is_empty(&self) -> bool {
        &&& self.count == 0
        &&& self.sum@ == "0.0"@
        &&& forall|i: int| 0 <= i < self.counts@.len() ==> (#[trigger] self.counts@[i]) == 0
    }

    /// A histogram that has observed nothing.
    pub fn new(bounds: Vec<String>) -> (h: Histogram)
        requires
            bounds@.len() < usize::MAX,
        ensures
            h.wf(),
            h.adds_up(),
            h.is_empty(),
            h.bounds == bounds,
    {
        let slots: usize = bounds.len() + 1;
        let mut counts: Vec<u64> = Vec::with_capacity(slots);
        for i in 0..slots
            invariant
                counts@.len() == i,
                forall|k: int| 0 <= k < i ==> (#[trigger] counts@[k]) == 0,
        {
            counts.push(0);
        }
        proof {
            lemma_total_of_zeros(counts@);
        }
        Histogram { bounds, counts, count: 0, sum: "0.0".to_owned() }
    }

    /// Record an observation: the slot of the first bound that it does not
    /// exceed, or the last slot, and the sum with it in the form in which it is
    /// shown.
    pub fn observe(&mut self, slot: usize, sum: String)
        requires
            old(self).wf(),
            slot < old(self).counts@.len(),
        ensures
            final(self).wf(),
            old(self).adds_up() ==> final(self).adds_up(),
            final(self).bounds == old(self).bounds,
            final(self).counts@ == old(self).counts@.update(
                slot as int,
                ((old(self).counts@[slot as int] + 1) % 0x1_0000_0000_0000_0000) as u64,
            ),
            final(self).count == (old(self).count + 1) % 0x1_0000_0000_0000_0000,
            final(self).sum@ == sum@,
    {
        proof {
            let held = self.counts@[slot as int];
            lemma_total_of_update(
                self.counts@,
                slot as int,
                ((held + 1) % 0x1_0000_0000_0000_0000) as u64,
            );
        }
        let held: u128 = self.counts[slot] as u128 + 1;
        self.counts.set(slot, (held % 0x1_0000_0000_0000_0000) as u64);
        let total: u128 = self.count as u128 + 1;
        self.count = (total % 0x1_0000_0000_0000_0000) as u64;
        self.sum = sum;
    }

    /// How many observations there were.
    pub fn count(&self) -> (n: u64)
        ensures
            n == self.count,
    {
        self.count
    }
}

impl Metric for Histogram {
    open spec fn is_fresh_like(&self, other: &Self) -> bool {
        &&& self.is_empty()
        &&& self.adds_up()
        &&& texts(self.bounds@) == texts(other.bounds@)
        &&& other.wf() ==> self.wf()
    }

    fn fresh(&self) -> (m: Self) {
        let bounds: Vec<String> = copied(&self.bounds);
        proof {
            assert(texts(bounds@).len() == texts(self.bounds@).len());
        }
        let mut counts: Vec<u64> = Vec::with_capacity(self.counts.len());
        for i in 0..self.counts.len()
            invariant
                counts@.len() == i,
                forall|k: int| 0 <= k < i ==> (#[trigger] counts@[k]) == 0,
        {
            counts.push(0);
        }
        proof {
            lemma_total_of_zeros(counts@);
        }
        Histogram { bounds, counts, count: 0, sum: "0.0".to_owned() }
    }
}

fn eleven(a: [&str; 11]) -> (list: Vec<String>)
    ensures
        list@.len() == 11,
        forall|i: int| 0 <= i < 11 ==> (#[trigger] list@[i])@ == a@[i]@,
{
    let mut list: Vec<String> = Vec::new();
    for i in 0..11
        invariant
            list@.len() == i,
            forall|k: int| 0 <= k < i ==> (#[trigger] list@[k])@ == a@[k]@,
    {
        let place: usize = i;
        list.push(a[place].to_owned());
    }
    list
}

/// Bucket bounds (seconds) for sub-second work: tile reads, webhook deliveries.
pub open spec fn fast_bounds() -> Seq<Seq<char>> {
    seq![
        "0.001"@,
        "0.005"@,
        "0.01"@,
        "0.025"@,
        "0.05"@,
        "0.1"@,
        "0.25"@,
        "0.5"@,
        "1.0"@,
        "2.5"@,
        "5.0"@,
    ]
}

/// Bucket bounds (seconds) for long-running work: full generation, batch
/// updates, publishing.
pub open spec fn slow_bounds() -> Seq<Seq<char>> {
    seq![
        "0.05"@,
        "0.25"@,
        "1.0"@,
        "2.5"@,
        "5.0"@,
        "10.0"@,
        "30.0"@,
        "60.0"@,
        "120.0"@,
        "300.0"@,
        "600.0"@,
    ]
}

/// Bucket bounds for sub-second work.
pub fn fast_buckets() -> (bounds: Vec<String>)
    ensures
        texts(bounds@) == fast_bounds(),
        bounds@.len() == 11,
{
    let bounds: Vec<String> = eleven(
        [
            "0.001",
            "0.005",
            "0.01",
            "0.025",
            "0.05",
            "0.1",
            "0.25",
            "0.5",
            "1.0",
            "2.5",
            "5.0",
        ],
    );
    assert(texts(bounds@) =~= fast_bounds());
    bounds
}

/// Bucket bounds for long-running work.
pub fn slow_buckets() -> (bounds: Vec<String>)
    ensures
        texts(bounds@) == slow_bounds(),
        bounds@.len() == 11,
{
    let bounds: Vec<String> = eleven(
        [
            "0.05",
            "0.25",
            "1.0",
            "2.5",
            "5.0",
            "10.0",
            "30.0",
            "60.0",
            "120.0",
            "300.0",
            "600.0",
        ],
    );
    assert(texts(bounds@) =~= slow_bounds());
    bounds
}

/// Up is more and down is less, by one, as long as there is a next number.
pub proof fn lemma_up_is_more(value: i64)
    ensures
        value < i64::MAX ==> one_up(value) == value + 1,
        value > i64::MIN ==> one_down(value) == value - 1,
        one_up(i64::MAX) == i64::MIN,
        one_down(i64::MIN) == i64::MAX,
{
}

/// A total is that of its parts.
pub proof fn lemma_total_of_parts(a: Seq<u64>, b: Seq<u64>, n: u64)
    ensures
        total(a + b) == total(a) + total(b),
        total(seq![n]) == n,
    decreases b.len(),
{
    assert(seq![n].drop_last() =~= Seq::<u64>::empty());
    assert(total(Seq::<u64>::empty()) == 0);
    if b.len() == 0 {
        assert(a + b =~= a);
    } else {
        lemma_total_of_parts(a, b.drop_last(), n);
        assert((a + b).drop_last() =~= a + b.drop_last());
    }
}

} // verus!
