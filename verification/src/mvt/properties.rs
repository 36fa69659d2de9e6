//! Reading properties: what the tags of a tile's features say.
//!
//! Nothing here runs. It states that a client that follows the tags of a feature
//! into the tables of its layer finds the properties that the feature had.
use crate::config::LayerConfig;
use crate::json::{json_of, Json};
use crate::mvt::geometry::feature_kind;
use crate::mvt::layer::{
    excludes, feature_commands, feature_number, layer_of, lemma_place,
    lemma_value_text_decides_value, property_fields, property_tags, tile_value, value_key,
    with_features, with_properties, with_property, FeatureData, FeatureModel, Tables, ValueModel,
};
use vstd::prelude::*;

verus! {

/// The properties that tags lead to: a key and a value for each two of them.
pub open spec fn shown_properties(
    keys: Seq<Seq<char>>,
    values: Seq<ValueModel>,
    tags: Seq<u32>,
) -> Seq<(Seq<char>, ValueModel)> {
    Seq::new(
        tags.len() / 2,
        |j: int| (keys[tags[2 * j] as int], values[tags[2 * j + 1] as int]),
    )
}

/// The properties that are kept at a zoom, with their tile values.
pub open spec fn kept_properties(
    fields: Seq<(Seq<char>, Json)>,
    layer: Option<LayerConfig>,
    zoom: u8,
) -> Seq<(Seq<char>, ValueModel)>
    decreases fields.len(),
{
    if fields.len() == 0 {
        Seq::empty()
    } else {
        let front = kept_properties(fields.drop_last(), layer, zoom);
        let (name, json) = fields.last();
        if excludes(layer, zoom, name) {
            front
        } else {
            front.push((name, tile_value(json)))
        }
    }
}

/// The features that have anything to draw.
pub open spec fn drawn(features: Seq<FeatureData>) -> Seq<FeatureData>
    decreases features.len(),
{
    if features.len() == 0 {
        Seq::empty()
    } else if feature_commands(features.last()).len() == 0 {
        drawn(features.drop_last())
    } else {
        drawn(features.drop_last()).push(features.last())
    }
}

/// The properties of a feature.
pub open spec fn properties_of(f: FeatureData) -> Seq<(Seq<char>, Json)> {
    property_fields(json_of(f.properties))
}

/// A place of the tables holds the value of some property.
pub open spec fn holds_property(t: Tables, i: int) -> bool {
    exists|json: Json|
        value_key(json) == t.value_keys[i] && #[trigger] tile_value(json) == t.values[i]
}

/// The values of tables are those of properties.
pub open spec fn made_of(t: Tables) -> bool {
    &&& t.values.len() == t.value_keys.len()
    &&& forall|i: int| 0 <= i < t.values.len() ==> #[trigger] holds_property(t, i)
}

/// Tables only grow.
pub open spec fn grown(before: Tables, after: Tables) -> bool {
    &&& before.keys.len() <= after.keys.len()
    &&& before.values.len() <= after.values.len()
    &&& forall|i: int| 0 <= i < before.keys.len() ==> #[trigger] after.keys[i] == before.keys[i]
    &&& forall|i: int|
        0 <= i < before.values.len() ==> #[trigger] after.values[i] == before.values[i]
}

/// Tags come in pairs and lead into the tables.
pub open spec fn leads_in(t: Tables, tags: Seq<u32>) -> bool {
    &&& tags.len() % 2 == 0
    &&& forall|j: int| 0 <= j < tags.len() / 2 ==> #[trigger] pair_leads_in(t, tags, j)
}

/// Two tags lead into the tables.
pub open spec fn pair_leads_in(t: Tables, tags: Seq<u32>, j: int) -> bool {
    tags[2 * j] < t.keys.len() && tags[2 * j + 1] < t.values.len()
}

/// Tables are small enough for their places to be tags.
pub open spec fn taggable(t: Tables) -> bool {
    t.keys.len() <= 0x1_0000_0000 && t.value_keys.len() <= 0x1_0000_0000
}

/// What tags lead to does not change while tables grow.
proof fn lemma_shown_stays(before: Tables, after: Tables, tags: Seq<u32>)
    requires
        grown(before, after),
        leads_in(before, tags),
    ensures
        leads_in(after, tags),
        shown_properties(after.keys, after.values, tags) == shown_properties(
            before.keys,
            before.values,
            tags,
        ),
{
    assert forall|j: int| 0 <= j < tags.len() / 2 implies #[trigger] pair_leads_in(
        after,
        tags,
        j,
    ) by {
        assert(pair_leads_in(before, tags, j));
    }
    assert(shown_properties(after.keys, after.values, tags) =~= shown_properties(
        before.keys,
        before.values,
        tags,
    )) by {
        assert forall|j: int| 0 <= j < tags.len() / 2 implies shown_properties(
            after.keys,
            after.values,
            tags,
        )[j] == shown_properties(before.keys, before.values, tags)[j] by {
            assert(pair_leads_in(before, tags, j));
        }
    }
}

/// One property: its tags lead to its name and its value.
proof fn lemma_property_is_shown(t: Tables, name: Seq<char>, json: Json)
    requires
        made_of(t),
        taggable(with_property(t, name, json)),
    ensures
        ({
            let after = with_property(t, name, json);
            let tags = property_tags(t, name, json);
            &&& made_of(after)
            &&& grown(t, after)
            &&& tags.len() == 2
            &&& tags[0] < after.keys.len()
            &&& after.keys[tags[0] as int] == name
            &&& tags[1] < after.values.len()
            &&& after.values[tags[1] as int] == tile_value(json)
        }),
{
    let after = with_property(t, name, json);
    let tags = property_tags(t, name, json);
    let key = value_key(json);
    lemma_place(t.keys, name);
    lemma_place(t.value_keys, key);
    lemma_place(after.keys, name);
    lemma_place(after.value_keys, key);
    assert(t.keys.push(name).last() == name);
    assert(t.value_keys.push(key).last() == key);
    assert forall|i: int| 0 <= i < after.values.len() implies #[trigger] holds_property(
        after,
        i,
    ) by {
        if i < t.values.len() {
            assert(holds_property(t, i));
            let j = choose|j: Json|
                value_key(j) == t.value_keys[i] && #[trigger] tile_value(j) == t.values[i];
            assert(after.value_keys[i] == t.value_keys[i]);
            assert(after.values[i] == t.values[i]);
            assert(tile_value(j) == after.values[i]);
        } else {
            assert(tile_value(json) == after.values[i]);
        }
    }
    let place = tags[1] as int;
    assert(after.value_keys[place] == key);
    assert(holds_property(after, place));
    let held = choose|j: Json|
        value_key(j) == after.value_keys[place] && #[trigger] tile_value(j) == after.values[place];
    lemma_value_text_decides_value(held, json);
}

/// The properties of a feature: its tags lead to those that are kept.
proof fn lemma_properties_are_shown(
    t: Tables,
    fields: Seq<(Seq<char>, Json)>,
    layer: Option<LayerConfig>,
    zoom: u8,
)
    requires
        made_of(t),
        taggable(with_properties(t, fields, layer, zoom).0),
    ensures
        ({
            let (after, tags) = with_properties(t, fields, layer, zoom);
            &&& made_of(after)
            &&& grown(t, after)
            &&& leads_in(after, tags)
            &&& shown_properties(after.keys, after.values, tags) == kept_properties(
                fields,
                layer,
                zoom,
            )
        }),
    decreases fields.len(),
{
    let (after, tags) = with_properties(t, fields, layer, zoom);
    if fields.len() == 0 {
        assert(shown_properties(after.keys, after.values, tags) =~= kept_properties(
            fields,
            layer,
            zoom,
        ));
    } else {
        let front = fields.drop_last();
        let (before, held) = with_properties(t, front, layer, zoom);
        let (name, json) = fields.last();
        assert(taggable(before));
        lemma_properties_are_shown(t, front, layer, zoom);
        if !excludes(layer, zoom, name) {
            lemma_property_is_shown(before, name, json);
            lemma_shown_stays(before, after, held);
            let pair = property_tags(before, name, json);
            let n = held.len() as int / 2;
            assert(tags == held + pair);
            assert forall|j: int| 0 <= j < tags.len() / 2 implies #[trigger] pair_leads_in(
                after,
                tags,
                j,
            ) by {
                if j < n {
                    assert(pair_leads_in(after, held, j));
                    assert(tags[2 * j] == held[2 * j] && tags[2 * j + 1] == held[2 * j + 1]);
                } else {
                    assert(tags[2 * j] == pair[0] && tags[2 * j + 1] == pair[1]);
                }
            }
            let shown = shown_properties(after.keys, after.values, tags);
            assert(shown =~= shown_properties(after.keys, after.values, held).push(
                (name, tile_value(json)),
            )) by {
                assert(tags[2 * n] == pair[0] && tags[2 * n + 1] == pair[1]);
                assert forall|j: int| 0 <= j < n implies shown[j] == shown_properties(
                    after.keys,
                    after.values,
                    held,
                )[j] by {
                    assert(tags[2 * j] == held[2 * j] && tags[2 * j + 1] == held[2 * j + 1]);
                }
            }
        }
    }
}

/// A feature of a tile shows a feature: its number, its kind, its commands and
/// its properties.
pub open spec fn shows(
    keys: Seq<Seq<char>>,
    values: Seq<ValueModel>,
    shown: FeatureModel,
    f: FeatureData,
    layer: Option<LayerConfig>,
    zoom: u8,
) -> bool {
    &&& shown.id == feature_number(f.id)
    &&& shown.kind == feature_kind(f.geometry.kind)
    &&& shown.geometry == feature_commands(f)
    &&& shown_properties(keys, values, shown.tags) == kept_properties(
        properties_of(f),
        layer,
        zoom,
    )
}

proof fn lemma_features_are_shown(
    features: Seq<FeatureData>,
    layer: Option<LayerConfig>,
    zoom: u8,
)
    requires
        taggable(with_features(features, layer, zoom).0),
    ensures
        ({
            let (t, done) = with_features(features, layer, zoom);
            &&& made_of(t)
            &&& done.len() == drawn(features).len()
            &&& forall|k: int| 0 <= k < done.len() ==> leads_in(t, (#[trigger] done[k]).tags)
            &&& forall|k: int|
                0 <= k < done.len() ==> shows(
                    t.keys,
                    t.values,
                    #[trigger] done[k],
                    drawn(features)[k],
                    layer,
                    zoom,
                )
        }),
    decreases features.len(),
{
    if features.len() > 0 {
        let front = features.drop_last();
        let f = features.last();
        let (before, held) = with_features(front, layer, zoom);
        let (t, done) = with_features(features, layer, zoom);
        let fields = properties_of(f);
        if feature_commands(f).len() == 0 {
            lemma_features_are_shown(front, layer, zoom);
        } else {
            lemma_tables_before(before, fields, layer, zoom);
            lemma_features_are_shown(front, layer, zoom);
            lemma_properties_are_shown(before, fields, layer, zoom);
            assert forall|k: int| 0 <= k < done.len() implies leads_in(
                t,
                (#[trigger] done[k]).tags,
            ) && shows(t.keys, t.values, done[k], drawn(features)[k], layer, zoom) by {
                if k < held.len() {
                    assert(done[k] == held[k]);
                    assert(drawn(features)[k] == drawn(front)[k]);
                    lemma_shown_stays(before, t, held[k].tags);
                }
            }
        }
    }
}

/// Properties make tables no smaller.
proof fn lemma_tables_before(
    t: Tables,
    fields: Seq<(Seq<char>, Json)>,
    layer: Option<LayerConfig>,
    zoom: u8,
)
    ensures
        taggable(with_properties(t, fields, layer, zoom).0) ==> taggable(t),
    decreases fields.len(),
{
    if fields.len() > 0 {
        lemma_tables_before(t, fields.drop_last(), layer, zoom);
    }
}

/// What a layer shows is what its features were: it has one feature for each
/// that has anything to draw, in their order, and following the tags of a
/// feature leads to exactly the properties that are kept at the zoom, under
/// their names and with their values. Tables have no more places than there are
/// tags.
pub proof fn lemma_layer_shows_its_features(
    name: Seq<char>,
    features: Seq<FeatureData>,
    layer: Option<LayerConfig>,
    zoom: u8,
)
    requires
        taggable(with_features(features, layer, zoom).0),
    ensures
        drawn(features).len() == 0 <==> layer_of(name, features, layer, zoom) is None,
        layer_of(name, features, layer, zoom) matches Some(l) ==> {
            &&& l.name == name
            &&& l.features.len() == drawn(features).len()
            &&& forall|k: int|
                0 <= k < l.features.len() ==> shows(
                    l.keys,
                    l.values,
                    #[trigger] l.features[k],
                    drawn(features)[k],
                    layer,
                    zoom,
                )
        },
{
    lemma_features_are_shown(features, layer, zoom);
}

/// Whether a feature is drawn depends on the feature alone, and those that are stay
/// in their order.
pub proof fn lemma_drawn_one_by_one(a: Seq<FeatureData>, b: Seq<FeatureData>, f: FeatureData)
    ensures
        drawn(a + b) == drawn(a) + drawn(b),
        feature_commands(f).len() > 0 ==> drawn(seq![f]) == seq![f],
        feature_commands(f).len() == 0 ==> drawn(seq![f]).len() == 0,
    decreases b.len(),
{
    assert(seq![f].drop_last() =~= Seq::<FeatureData>::empty());
    assert(drawn(Seq::<FeatureData>::empty()) =~= Seq::<FeatureData>::empty());
    if feature_commands(f).len() > 0 {
        assert(drawn(seq![f]) =~= seq![f]);
    }
    if b.len() == 0 {
        assert(a + b =~= a);
        assert(drawn(a) + drawn(b) =~= drawn(a));
    } else {
        lemma_drawn_one_by_one(a, b.drop_last(), f);
        assert((a + b).drop_last() =~= a + b.drop_last());
        assert((a + b).last() == b.last());
        assert(drawn(a + b) =~= drawn(a) + drawn(b));
    }
}

/// Whether a property is kept depends on its name alone, and those that are stay in
/// their order, each with its own value.
pub proof fn lemma_properties_kept_one_by_one(
    a: Seq<(Seq<char>, Json)>,
    b: Seq<(Seq<char>, Json)>,
    field: (Seq<char>, Json),
    layer: Option<LayerConfig>,
    zoom: u8,
)
    ensures
        kept_properties(a + b, layer, zoom) == kept_properties(a, layer, zoom) + kept_properties(
            b,
            layer,
            zoom,
        ),
        excludes(layer, zoom, field.0) ==> kept_properties(seq![field], layer, zoom).len() == 0,
        !excludes(layer, zoom, field.0) ==> kept_properties(seq![field], layer, zoom) == seq![
            (field.0, tile_value(field.1)),
        ],
    decreases b.len(),
{
    assert(seq![field].drop_last() =~= Seq::<(Seq<char>, Json)>::empty());
    assert(kept_properties(Seq::<(Seq<char>, Json)>::empty(), layer, zoom) =~= Seq::<
        (Seq<char>, ValueModel),
    >::empty());
    if !excludes(layer, zoom, field.0) {
        assert(kept_properties(seq![field], layer, zoom) =~= seq![(field.0, tile_value(field.1))]);
    }
    if b.len() == 0 {
        assert(a + b =~= a);
        assert(kept_properties(a, layer, zoom) + kept_properties(b, layer, zoom)
            =~= kept_properties(a, layer, zoom));
    } else {
        lemma_properties_kept_one_by_one(a, b.drop_last(), field, layer, zoom);
        assert((a + b).drop_last() =~= a + b.drop_last());
        assert((a + b).last() == b.last());
        assert(kept_properties(a + b, layer, zoom) =~= kept_properties(a, layer, zoom)
            + kept_properties(b, layer, zoom));
    }
}

/// The tags of a feature come in pairs: the first leads to a key, the second to a
/// value.
pub proof fn lemma_tags_lead_to_properties(
    keys: Seq<Seq<char>>,
    values: Seq<ValueModel>,
    tags: Seq<u32>,
    j: int,
)
    requires
        0 <= j,
        2 * j + 1 < tags.len(),
    ensures
        2 * shown_properties(keys, values, tags).len() <= tags.len() <= 2 * shown_properties(
            keys,
            values,
            tags,
        ).len() + 1,
        shown_properties(keys, values, tags)[j].0 == keys[tags[2 * j] as int],
        shown_properties(keys, values, tags)[j].1 == values[tags[2 * j + 1] as int],
{
}

} // verus!
