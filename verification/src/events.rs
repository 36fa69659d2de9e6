//! Events of the tile pipeline.
use crate::text::{
    copied, lemma_text_order_total, lemma_text_order_transitive, same_text, text_before, text_lt,
    texts,
};
use std::collections::HashSet;
use vstd::prelude::*;

verus! {

/// Events emitted by the tile pipeline.
#[derive(Debug)]
pub enum TileEvent {
    /// Full generation completed for a source.
    GenerateComplete { source: String, duration_ms: u64 },
    /// Incremental update completed for a source.
    UpdateComplete {
        source: String,
        tiles_updated: usize,
        affected_zooms: Vec<u8>,
        /// The source's configured max zoom: clients show its tiles at higher
        /// zooms too, and those views are stale as well.
        max_zoom: u8,
        layers_affected: Vec<String>,
    },
}

/// What an event says.
pub enum EventModel {
    Generate { source: Seq<char>, duration_ms: u64 },
    Update {
        source: Seq<char>,
        tiles: nat,
        zooms: Seq<u8>,
        max_zoom: u8,
        layers: Seq<Seq<char>>,
    },
}

impl EventModel {
    /// The source that an event belongs to.
    pub open spec fn source(self) -> Seq<char> {
        match self {
            EventModel::Generate { source, duration_ms: _ } => source,
            EventModel::Update { source, tiles: _, zooms: _, max_zoom: _, layers: _ } => source,
        }
    }

    /// The tiles that an event reports as updated.
    pub open spec fn tiles(self) -> nat {
        match self {
            EventModel::Generate { source: _, duration_ms: _ } => 0,
            EventModel::Update { source: _, tiles, zooms: _, max_zoom: _, layers: _ } => tiles,
        }
    }
}

/// The zooms below `n` in a set, in ascending order.
pub open spec fn zooms_below(zooms: Set<u8>, n: nat) -> Seq<u8>
    decreases n,
{
    if n == 0 {
        Seq::empty()
    } else {
        let front = zooms_below(zooms, (n - 1) as nat);
        if zooms.contains((n - 1) as u8) {
            front.push((n - 1) as u8)
        } else {
            front
        }
    }
}

/// The zooms in a set, in ascending order.
pub open spec fn sorted_zooms(zooms: Set<u8>) -> Seq<u8> {
    zooms_below(zooms, 256)
}

/// Texts in ascending order, none twice.
pub open spec fn ascending_texts(list: Seq<Seq<char>>) -> bool {
    forall|i: int, j: int|
        0 <= i < j < list.len() ==> text_lt(#[trigger] list[i], #[trigger] list[j])
}

/// A list holds exactly the texts of two others, in ascending order.
pub open spec fn sorted_union(
    list: Seq<Seq<char>>,
    a: Seq<Seq<char>>,
    b: Seq<Seq<char>>,
) -> bool {
    &&& ascending_texts(list)
    &&& forall|t: Seq<char>| #[trigger] list.contains(t) <==> a.contains(t) || b.contains(t)
}

/// An event after another has been merged into it. Updates add up: tiles, zooms
/// and layers. A generation replaces an update and is not changed by one; of
/// two generations the later duration counts.
pub open spec fn merges_to(before: EventModel, other: EventModel, after: EventModel) -> bool {
    match (before, other) {
        (
            EventModel::Update { source, tiles, zooms, max_zoom, layers },
            EventModel::Update {
                source: _,
                tiles: other_tiles,
                zooms: other_zooms,
                max_zoom: _,
                layers: other_layers,
            },
        ) => {
            &&& after is Update
            &&& after->Update_source == source
            &&& after->Update_tiles == tiles + other_tiles
            &&& after->Update_zooms == sorted_zooms(zooms.to_set().union(other_zooms.to_set()))
            &&& after->Update_max_zoom == max_zoom
            &&& sorted_union(after->Update_layers, layers, other_layers)
        },
        (EventModel::Update { source: _, tiles: _, zooms: _, max_zoom: _, layers: _ }, generate) => after == generate,
        (
            EventModel::Generate { source, duration_ms: _ },
            EventModel::Generate { source: _, duration_ms },
        ) => after == (EventModel::Generate { source, duration_ms }),
        (generate, _) => after == generate,
    }
}

/// Merging keeps what must not be lost: the tiles of updates add up, no affected
/// zoom or layer is dropped, and once a generation is pending it stays one.
pub proof fn lemma_merge_keeps_everything(before: EventModel, other: EventModel, after: EventModel)
    requires
        merges_to(before, other, after),
    ensures
        before is Generate || other is Generate ==> after is Generate,
        before is Update && other is Update ==> {
            &&& after is Update
            &&& after.tiles() == before.tiles() + other.tiles()
            &&& forall|z: u8| #[trigger]
                after->Update_zooms.contains(z) <==> before->Update_zooms.contains(z)
                    || other->Update_zooms.contains(z)
            &&& forall|t: Seq<char>| #[trigger]
                after->Update_layers.contains(t) <==> before->Update_layers.contains(t)
                    || other->Update_layers.contains(t)
        },
{
    if before is Update && other is Update {
        let all = before->Update_zooms.to_set().union(other->Update_zooms.to_set());
        assert forall|z: u8| #[trigger]
            after->Update_zooms.contains(z) <==> before->Update_zooms.contains(z)
                || other->Update_zooms.contains(z) by {
            lemma_sorted_zooms_members(all, 256, z);
        }
    }
}

/// The order in which two events are merged into a third does not matter, unless
/// both are generations, of which the later duration counts.
pub proof fn lemma_merge_order_does_not_matter(
    before: EventModel,
    b: EventModel,
    c: EventModel,
    with_b: EventModel,
    b_then_c: EventModel,
    with_c: EventModel,
    c_then_b: EventModel,
)
    requires
        !(b is Generate && c is Generate),
        merges_to(before, b, with_b),
        merges_to(with_b, c, b_then_c),
        merges_to(before, c, with_c),
        merges_to(with_c, b, c_then_b),
    ensures
        b_then_c == c_then_b,
{
    if before is Update && b is Update && c is Update {
        let one = with_b->Update_zooms.to_set().union(c->Update_zooms.to_set());
        let other = with_c->Update_zooms.to_set().union(b->Update_zooms.to_set());
        assert forall|z: u8| one.contains(z) <==> other.contains(z) by {
            lemma_merge_keeps_everything(before, b, with_b);
            lemma_merge_keeps_everything(before, c, with_c);
            assert(with_b->Update_zooms.contains(z) <==> before->Update_zooms.contains(z)
                || b->Update_zooms.contains(z));
            assert(with_c->Update_zooms.contains(z) <==> before->Update_zooms.contains(z)
                || c->Update_zooms.contains(z));
        }
        assert(one =~= other);
        let layers = b_then_c->Update_layers;
        assert forall|t: Seq<char>| #[trigger]
            layers.contains(t) <==> c_then_b->Update_layers.contains(t) by {
            assert(with_b->Update_layers.contains(t) <==> before->Update_layers.contains(t)
                || b->Update_layers.contains(t));
            assert(with_c->Update_layers.contains(t) <==> before->Update_layers.contains(t)
                || c->Update_layers.contains(t));
        }
        lemma_ascending_texts_are_one_list(layers, c_then_b->Update_layers);
    }
}

/// There is one way only to put texts in ascending order.
proof fn lemma_ascending_texts_are_one_list(a: Seq<Seq<char>>, b: Seq<Seq<char>>)
    requires
        ascending_texts(a),
        ascending_texts(b),
        forall|t: Seq<char>| #[trigger] a.contains(t) <==> b.contains(t),
    ensures
        a == b,
    decreases a.len(),
{
    if a.len() == 0 {
        if b.len() > 0 {
            let t = b[0];
            assert(b.contains(t));
            assert(a.contains(t));
        }
        assert(a =~= b);
    } else {
        let last = a.last();
        assert(a.contains(a[a.len() - 1]));
        assert(b.contains(last));
        let i = choose|i: int| 0 <= i < b.len() && b[i] == last;
        assert(b.contains(b[b.len() - 1]));
        assert(a.contains(b.last()));
        let j = choose|j: int| 0 <= j < a.len() && a[j] == b.last();
        lemma_text_order_total(last, b.last());
        assert(b.last() == last) by {
            if i < b.len() - 1 {
                assert(text_lt(b[i], b[b.len() - 1]));
                if j < a.len() - 1 {
                    assert(text_lt(a[j], a[a.len() - 1]));
                }
            }
        }
        let front = a.drop_last();
        let other = b.drop_last();
        assert forall|t: Seq<char>| #[trigger] front.contains(t) <==> other.contains(t) by {
            lemma_before_the_last(a, t);
            lemma_before_the_last(b, t);
            assert(a.contains(t) <==> b.contains(t));
        }
        lemma_ascending_texts_are_one_list(front, other);
        assert(a =~= front.push(last));
        assert(b =~= other.push(last));
    }
}

proof fn lemma_before_the_last(list: Seq<Seq<char>>, t: Seq<char>)
    requires
        ascending_texts(list),
        list.len() > 0,
    ensures
        list.drop_last().contains(t) <==> list.contains(t) && t != list.last(),
{
    let front = list.drop_last();
    let n = list.len() - 1;
    lemma_text_order_total(t, t);
    if front.contains(t) {
        let k = choose|k: int| 0 <= k < front.len() && front[k] == t;
        assert(list[k] == t);
        assert(text_lt(list[k], list[n]));
    }
    if list.contains(t) && t != list.last() {
        let k = choose|k: int| 0 <= k < list.len() && list[k] == t;
        assert(front[k] == t);
    }
}

/// The sorted zooms below a bound are those of the set below it.
pub proof fn lemma_sorted_zooms_members(zooms: Set<u8>, n: nat, z: u8)
    requires
        n <= 256,
    ensures
        zooms_below(zooms, n).contains(z) <==> zooms.contains(z) && z < n,
    decreases n,
{
    if n > 0 {
        let m = (n - 1) as nat;
        let front = zooms_below(zooms, m);
        let all = zooms_below(zooms, n);
        lemma_sorted_zooms_members(zooms, m, z);
        if all.contains(z) {
            let k = choose|k: int| 0 <= k < all.len() && all[k] == z;
            if k < front.len() {
                assert(front[k] == z);
            }
        }
        if front.contains(z) {
            let k = choose|k: int| 0 <= k < front.len() && front[k] == z;
            assert(all[k] == z);
        }
        if zooms.contains(z) && z == m {
            assert(all[front.len() as int] == z);
        }
    }
}

/// Put a text into an ascending list, unless it is there.
fn insert_text(list: &mut Vec<String>, text: String)
    requires
        ascending_texts(texts(old(list)@)),
    ensures
        ascending_texts(texts(final(list)@)),
        forall|t: Seq<char>| #[trigger]
            texts(final(list)@).contains(t) <==> texts(old(list)@).contains(t) || t == text@,
{
    let ghost before = texts(list@);
    let ghost added = text@;
    let mut i: usize = 0;
    while i < list.len() && text_before(list[i].as_str(), text.as_str())
        invariant
            i <= list@.len(),
            before == texts(list@),
            added == text@,
            forall|k: int| 0 <= k < i ==> text_lt(#[trigger] before[k], added),
        decreases list@.len() - i,
    {
        i = i + 1;
    }
    if i < list.len() && same_text(list[i].as_str(), text.as_str()) {
        assert(before[i as int] == added);
        return;
    }
    list.insert(i, text);
    proof {
        let after = texts(list@);
        assert(after =~= before.insert(i as int, added));
        if i < before.len() {
            lemma_text_order_total(before[i as int], added);
        }
        assert forall|a: int, b: int| 0 <= a < b < after.len() implies text_lt(
            #[trigger] after[a],
            #[trigger] after[b],
        ) by {
            let pa = if a < i { a } else { a - 1 };
            let pb = if b < i { b } else { b - 1 };
            if a == i {
                if pb > i {
                    assert(text_lt(before[i as int], before[pb]));
                    lemma_text_order_transitive(added, before[i as int], before[pb]);
                }
            } else if b == i {
            } else {
                assert(text_lt(before[pa], before[pb]));
            }
        }
        assert forall|t: Seq<char>| #[trigger] after.contains(t) <==> before.contains(t) || t
            == added by {
            if after.contains(t) {
                let k = choose|k: int| 0 <= k < after.len() && after[k] == t;
                if k < i {
                    assert(before[k] == t);
                } else if k > i {
                    assert(before[k - 1] == t);
                }
            }
            if before.contains(t) {
                let k = choose|k: int| 0 <= k < before.len() && before[k] == t;
                if k < i {
                    assert(after[k] == t);
                } else {
                    assert(after[k + 1] == t);
                }
            }
            if t == added {
                assert(after[i as int] == t);
            }
        }
    }
}

fn insert_texts(list: &mut Vec<String>, more: &Vec<String>)
    requires
        ascending_texts(texts(old(list)@)),
    ensures
        ascending_texts(texts(final(list)@)),
        forall|t: Seq<char>| #[trigger]
            texts(final(list)@).contains(t) <==> texts(old(list)@).contains(t) || texts(
                more@,
            ).contains(t),
{
    let ghost before = texts(list@);
    let ghost all = texts(more@);
    for i in 0..more.len()
        invariant
            all == texts(more@),
            ascending_texts(texts(list@)),
            forall|t: Seq<char>| #[trigger]
                texts(list@).contains(t) <==> before.contains(t) || all.take(i as int).contains(t),
    {
        insert_text(list, more[i].clone());
        proof {
            let added = more@[i as int]@;
            assert(all.take(i + 1) =~= all.take(i as int).push(added));
            assert forall|t: Seq<char>| all.take(i + 1).contains(t) <==> all.take(
                i as int,
            ).contains(t) || t == added by {
                lemma_pushed_member(all.take(i as int), added, t);
            }
        }
    }
    assert(all.take(all.len() as int) =~= all);
}

proof fn lemma_pushed_member(list: Seq<Seq<char>>, added: Seq<char>, t: Seq<char>)
    ensures
        list.push(added).contains(t) <==> list.contains(t) || t == added,
{
    let grown = list.push(added);
    if grown.contains(t) {
        let k = choose|k: int| 0 <= k < grown.len() && grown[k] == t;
        if k < list.len() {
            assert(list[k] == t);
        }
    }
    if list.contains(t) {
        let k = choose|k: int| 0 <= k < list.len() && list[k] == t;
        assert(grown[k] == t);
    }
    if t == added {
        assert(grown[list.len() as int] == t);
    }
}

fn holds_zoom(zooms: &Vec<u8>, zoom: u8) -> (found: bool)
    ensures
        found == zooms@.contains(zoom),
{
    for i in 0..zooms.len()
        invariant
            forall|k: int| 0 <= k < i ==> #[trigger] zooms@[k] != zoom,
    {
        if zooms[i] == zoom {
            return true;
        }
    }
    false
}

impl TileEvent {
    pub open spec fn model(self) -> EventModel {
        match self {
            TileEvent::GenerateComplete { source, duration_ms } => EventModel::Generate {
                source: source@,
                duration_ms,
            },
            TileEvent::UpdateComplete {
                source,
                tiles_updated,
                affected_zooms,
                max_zoom,
                layers_affected,
            } => EventModel::Update {
                source: source@,
                tiles: tiles_updated as nat,
                zooms: affected_zooms@,
                max_zoom,
                layers: texts(layers_affected@),
            },
        }
    }

    /// The source name this event belongs to.
    pub fn source(&self) -> (name: &str)
        ensures
            name@ == self.model().source(),
    {
        match self {
            TileEvent::GenerateComplete { source, duration_ms: _ } => source.as_str(),
            TileEvent::UpdateComplete {
                source,
                tiles_updated: _,
                affected_zooms: _,
                max_zoom: _,
                layers_affected: _,
            } => source.as_str(),
        }
    }

    /// A copy of the event.
    pub fn copy(&self) -> (event: TileEvent)
        ensures
            event.model() == self.model(),
    {
        match self {
            TileEvent::GenerateComplete { source, duration_ms } => TileEvent::GenerateComplete {
                source: source.clone(),
                duration_ms: *duration_ms,
            },
            TileEvent::UpdateComplete {
                source,
                tiles_updated,
                affected_zooms,
                max_zoom,
                layers_affected,
            } => TileEvent::UpdateComplete {
                source: source.clone(),
                tiles_updated: *tiles_updated,
                affected_zooms: affected_zooms.clone(),
                max_zoom: *max_zoom,
                layers_affected: copied(layers_affected),
            },
        }
    }

    /// Create an update event from tile update results, with the zooms in
    /// ascending order.
    pub fn update_complete(
        source: String,
        tiles_updated: usize,
        zooms: &HashSet<u8>,
        max_zoom: u8,
        layers: Vec<String>,
    ) -> (event: TileEvent)
        ensures
            event.model() == (EventModel::Update {
                source: source@,
                tiles: tiles_updated as nat,
                zooms: sorted_zooms(zooms@),
                max_zoom,
                layers: texts(layers@),
            }),
    {
        broadcast use vstd::std_specs::hash::group_hash_axioms;

        let mut affected_zooms: Vec<u8> = Vec::new();
        let mut z: usize = 0;
        while z < 256
            invariant
                z <= 256,
                affected_zooms@ == zooms_below(zooms@, z as nat),
            decreases 256 - z,
        {
            let zoom: u8 = z as u8;
            if zooms.contains(&zoom) {
                affected_zooms.push(zoom);
            }
            z = z + 1;
        }
        TileEvent::UpdateComplete {
            source,
            tiles_updated,
            affected_zooms,
            max_zoom,
            layers_affected: layers,
        }
    }

    /// Merge another event into this one.
    pub fn merge(&mut self, other: &TileEvent)
        requires
            old(self).model().tiles() + other.model().tiles() <= usize::MAX,
        ensures
            merges_to(old(self).model(), other.model(), final(self).model()),
    {
        let ghost before = self.model();
        let ghost incoming = other.model();
        let mut merged: TileEvent = self.copy();
        match (&mut merged, other) {
            (
                TileEvent::UpdateComplete {
                    source: _,
                    tiles_updated,
                    affected_zooms,
                    max_zoom: _,
                    layers_affected,
                },
                TileEvent::UpdateComplete {
                    source: _,
                    tiles_updated: other_tiles,
                    affected_zooms: other_zooms,
                    max_zoom: _,
                    layers_affected: other_layers,
                },
            ) => {
                *tiles_updated = *tiles_updated + *other_tiles;
                *affected_zooms = merged_zooms(affected_zooms, other_zooms);
                *layers_affected = merged_layers(layers_affected, other_layers);
            },
            (
                TileEvent::UpdateComplete {
                    source: _,
                    tiles_updated: _,
                    affected_zooms: _,
                    max_zoom: _,
                    layers_affected: _,
                },
                TileEvent::GenerateComplete { source: _, duration_ms: _ },
            ) => {
                *self = other.copy();
                return;
            },
            (
                TileEvent::GenerateComplete { source: _, duration_ms },
                TileEvent::GenerateComplete { source: _, duration_ms: other_duration },
            ) => {
                *duration_ms = *other_duration;
            },
            (
                TileEvent::GenerateComplete { source: _, duration_ms: _ },
                TileEvent::UpdateComplete {
                    source: _,
                    tiles_updated: _,
                    affected_zooms: _,
                    max_zoom: _,
                    layers_affected: _,
                },
            ) => {},
        }
        *self = merged;
    }
}

fn merged_zooms(a: &Vec<u8>, b: &Vec<u8>) -> (zooms: Vec<u8>)
    ensures
        zooms@ == sorted_zooms(a@.to_set().union(b@.to_set())),
{
    let ghost all = a@.to_set().union(b@.to_set());
    let mut zooms: Vec<u8> = Vec::new();
    let mut z: usize = 0;
    while z < 256
        invariant
            z <= 256,
            all == a@.to_set().union(b@.to_set()),
            zooms@ == zooms_below(all, z as nat),
        decreases 256 - z,
    {
        let zoom: u8 = z as u8;
        if holds_zoom(a, zoom) || holds_zoom(b, zoom) {
            zooms.push(zoom);
        }
        z = z + 1;
    }
    zooms
}

fn merged_layers(a: &Vec<String>, b: &Vec<String>) -> (layers: Vec<String>)
    ensures
        sorted_union(texts(layers@), texts(a@), texts(b@)),
{
    let mut layers: Vec<String> = Vec::new();
    assert(texts(layers@) =~= Seq::<Seq<char>>::empty());
    insert_texts(&mut layers, a);
    insert_texts(&mut layers, b);
    layers
}

proof fn lemma_sorted_zooms_ascend(zooms: Set<u8>, n: nat)
    requires
        n <= 256,
    ensures
        forall|i: int, j: int|
            0 <= i < j < zooms_below(zooms, n).len() ==> (#[trigger] zooms_below(zooms, n)[i]) < (
            #[trigger] zooms_below(zooms, n)[j]),
        forall|i: int|
            0 <= i < zooms_below(zooms, n).len() ==> (#[trigger] zooms_below(zooms, n)[i]) < n,
    decreases n,
{
    if n > 0 {
        let front = zooms_below(zooms, (n - 1) as nat);
        let all = zooms_below(zooms, n);
        lemma_sorted_zooms_ascend(zooms, (n - 1) as nat);
        assert forall|i: int| 0 <= i < all.len() implies (#[trigger] all[i]) < n by {
            if i < front.len() {
                assert(all[i] == front[i]);
            }
        }
        assert forall|i: int, j: int| 0 <= i < j < all.len() implies (#[trigger] all[i]) < (
        #[trigger] all[j]) by {
            assert(all[i] == front[i]);
            if j < front.len() {
                assert(all[j] == front[j]);
            }
        }
    }
}

/// Merging keeps the source and, of two updates, the zoom range; it lists the
/// zooms in ascending order, each once. Of two generations the later one's duration
/// counts; of a generation and an update the generation is what remains.
pub proof fn lemma_merge_keeps_the_source(before: EventModel, other: EventModel, after: EventModel)
    requires
        merges_to(before, other, after),
    ensures
        match (before, other) {
            (EventModel::Update { .. }, EventModel::Update { .. }) => {
                &&& after is Update
                &&& after->Update_source == before->Update_source
                &&& after->Update_max_zoom == before->Update_max_zoom
                &&& forall|i: int, j: int|
                    0 <= i < j < after->Update_zooms.len() ==> (#[trigger] after->Update_zooms[i])
                        < (#[trigger] after->Update_zooms[j])
                &&& forall|i: int, j: int|
                    0 <= i < j < after->Update_layers.len() ==> (#[trigger] after->Update_layers[i])
                        != (#[trigger] after->Update_layers[j])
            },
            (EventModel::Update { .. }, EventModel::Generate { .. }) => after == other,
            (EventModel::Generate { .. }, EventModel::Update { .. }) => after == before,
            (EventModel::Generate { .. }, EventModel::Generate { .. }) => {
                &&& after is Generate
                &&& after->Generate_source == before->Generate_source
                &&& after->duration_ms == other->duration_ms
            },
        },
{
    if before is Update && other is Update {
        let all = before->Update_zooms.to_set().union(other->Update_zooms.to_set());
        lemma_sorted_zooms_ascend(all, 256);
        let layers = after->Update_layers;
        assert forall|i: int, j: int| 0 <= i < j < layers.len() implies (#[trigger] layers[i]) != (
        #[trigger] layers[j]) by {
            lemma_text_order_total(layers[i], layers[j]);
        }
    }
}

/// What an event says is all that stands in it.
pub proof fn lemma_event_says_all_of_itself(event: TileEvent)
    ensures
        match (event, event.model()) {
            (
                TileEvent::GenerateComplete { source, duration_ms },
                EventModel::Generate { source: said, duration_ms: lasted },
            ) => said == source@ && lasted == duration_ms,
            (
                TileEvent::UpdateComplete {
                    source,
                    tiles_updated,
                    affected_zooms,
                    max_zoom,
                    layers_affected,
                },
                EventModel::Update { source: said, tiles, zooms, max_zoom: highest, layers },
            ) => {
                &&& said == source@
                &&& tiles == tiles_updated
                &&& zooms == affected_zooms@
                &&& highest == max_zoom
                &&& layers.len() == layers_affected@.len()
                &&& forall|i: int|
                    0 <= i < layers.len() ==> #[trigger] layers[i] == layers_affected@[i]@
            },
            _ => false,
        },
{
}

/// Texts in ascending order are each before all that follow, so that none stands
/// twice.
pub proof fn lemma_ascending_texts(list: Seq<Seq<char>>, i: int, j: int)
    requires
        ascending_texts(list),
        0 <= i < j < list.len(),
    ensures
        text_lt(list[i], list[j]),
        list[i] != list[j],
{
    lemma_text_order_total(list[i], list[j]);
}

/// An event belongs to the source that it names; only an update reports tiles.
pub proof fn lemma_event_names_its_source(event: EventModel)
    ensures
        match event {
            EventModel::Generate { source, .. } => event.source() == source && event.tiles() == 0,
            EventModel::Update { source, tiles, .. } => event.source() == source && event.tiles()
                == tiles,
        },
{
}

} // verus!
