//! Layers: features with tags into tables of keys and values.
use crate::config::LayerConfig;
use crate::json::{
    bits_of, borrowed_models, int_of, json_bits, json_bool, json_fields, json_int, json_is_number,
    json_of, json_str, json_text, json_to_text, Json,
};
use crate::mvt::geometry::{
    encode_geometry, feature_kind, feature_kind_of, geometry_commands, nested, GeomType,
    TileShape,
};
use crate::text::{holds_text, joined, same_text, texts};
use serde_json::Value;
use vstd::prelude::*;

verus! {

/// A property value in a tile; a double by its bits.
#[derive(Debug)]
pub enum TileValue {
    Text(String),
    Int(i64),
    Double(u64),
    Bool(bool),
}

/// What a property value is.
pub enum ValueModel {
    Text(Seq<char>),
    Int(i64),
    Double(u64),
    Bool(bool),
}

impl TileValue {
    pub open spec fn model(self) -> ValueModel {
        match self {
            TileValue::Text(s) => ValueModel::Text(s@),
            TileValue::Int(i) => ValueModel::Int(i),
            TileValue::Double(bits) => ValueModel::Double(bits),
            TileValue::Bool(b) => ValueModel::Bool(b),
        }
    }
}

/// What some property values are.
pub open spec fn value_models(values: Seq<TileValue>) -> Seq<ValueModel> {
    Seq::new(values.len(), |i: int| values[i].model())
}

/// The text under which a value is kept once: its type and its text.
pub open spec fn value_key(json: Json) -> Seq<char> {
    match json {
        Json::Text(s) => "s:"@ + s,
        Json::Number(text) => "n:"@ + text,
        Json::Bool(b) => "b:"@ + (if b {
            "true"@
        } else {
            "false"@
        }),
        _ => "o:"@ + json_text(json),
    }
}

/// The tile value for a property: an integer where the number is one, else a
/// double, and the JSON text of what a tile has no value for.
pub open spec fn tile_value(json: Json) -> ValueModel {
    match json {
        Json::Text(s) => ValueModel::Text(s),
        Json::Number(text) => match (int_of(json), bits_of(json)) {
            (Some(i), _) => ValueModel::Int(i),
            (None, Some(bits)) => ValueModel::Double(bits),
            (None, None) => ValueModel::Text(text),
        },
        Json::Bool(b) => ValueModel::Bool(b),
        _ => ValueModel::Text(json_text(json)),
    }
}

/// The text under which a value is kept once.
pub fn value_to_string(value: &Value) -> (key: String)
    ensures
        key@ == value_key(json_of(*value)),
{
    if let Some(s) = json_str(value) {
        return joined("s:", s);
    }
    if json_is_number(value) {
        return joined("n:", json_to_text(value).as_str());
    }
    if let Some(b) = json_bool(value) {
        return joined("b:", if b { "true" } else { "false" });
    }
    joined("o:", json_to_text(value).as_str())
}

/// The tile value for a property.
pub fn json_to_mvt_value(value: &Value) -> (found: TileValue)
    ensures
        found.model() == tile_value(json_of(*value)),
{
    if let Some(s) = json_str(value) {
        return TileValue::Text(s.to_owned());
    }
    if json_is_number(value) {
        if let Some(i) = json_int(value) {
            return TileValue::Int(i);
        }
        if let Some(bits) = json_bits(value) {
            return TileValue::Double(bits);
        }
        return TileValue::Text(json_to_text(value));
    }
    if let Some(b) = json_bool(value) {
        return TileValue::Bool(b);
    }
    TileValue::Text(json_to_text(value))
}

/// Some rule of a layer leaves a property out at a zoom.
pub open spec fn excludes(layer: Option<LayerConfig>, zoom: u8, name: Seq<char>) -> bool {
    match layer {
        Some(layer) => match layer.property_rules {
            Some(rules) => exists|r: int|
                0 <= r < rules@.len() && zoom < (#[trigger] rules@[r]).below_zoom && texts(
                    rules@[r].exclude@,
                ).contains(name),
            None => false,
        },
        None => false,
    }
}

/// The value behind an optional reference.
pub open spec fn deref_option<T>(r: Option<&T>) -> Option<T> {
    match r {
        Some(r) => Some(*r),
        None => None,
    }
}

/// The names of the properties that are left out at a zoom, each once.
#[derive(Debug)]
pub struct ExcludedProperties {
    pub names: Vec<String>,
}

impl ExcludedProperties {
    /// Whether a property is left out.
    pub fn contains(&self, name: &str) -> (found: bool)
        ensures
            found == texts(self.names@).contains(name@),
    {
        holds_text(&self.names, name)
    }

    /// Whether no property is left out.
    pub fn is_empty(&self) -> (empty: bool)
        ensures
            empty == (self.names@.len() == 0),
    {
        self.names.len() == 0
    }

    /// How many properties are left out.
    pub fn len(&self) -> (n: usize)
        ensures
            n == self.names@.len(),
    {
        self.names.len()
    }
}

/// Some rule among the first `n` leaves a property out.
spec fn excluded_by(
    rules: Seq<crate::config::PropertyRule>,
    n: int,
    zoom: u8,
    name: Seq<char>,
) -> bool {
    exists|r: int|
        0 <= r < n && zoom < (#[trigger] rules[r]).below_zoom && texts(
            rules[r].exclude@,
        ).contains(name)
}

/// Compute the set of property names to exclude at the given zoom level.
pub fn compute_excluded_properties(layer_cfg: Option<&LayerConfig>, zoom: u8) -> (excluded:
    ExcludedProperties)
    ensures
        texts(excluded.names@).no_duplicates(),
        forall|name: Seq<char>| #[trigger]
            texts(excluded.names@).contains(name) <==> excludes(
                deref_option(layer_cfg),
                zoom,
                name,
            ),
{
    let mut names: Vec<String> = Vec::new();
    assert(texts(names@) =~= Seq::empty());
    if let Some(layer) = layer_cfg {
        if let Some(rules) = &layer.property_rules {
            for r in 0..rules.len()
                invariant
                    texts(names@).no_duplicates(),
                    forall|name: Seq<char>| #[trigger]
                        texts(names@).contains(name) <==> excluded_by(
                            rules@,
                            r as int,
                            zoom,
                            name,
                        ),
            {
                let ghost before = texts(names@);
                if zoom < rules[r].below_zoom {
                    let list: &Vec<String> = &rules[r].exclude;
                    for j in 0..list.len()
                        invariant
                            texts(names@).no_duplicates(),
                            forall|name: Seq<char>| #[trigger]
                                texts(names@).contains(name) <==> before.contains(name) || texts(
                                    list@,
                                ).take(j as int).contains(name),
                    {
                        let ghost held = texts(names@);
                        let ghost added = list@[j as int]@;
                        if !holds_text(&names, list[j].as_str()) {
                            names.push(list[j].clone());
                            assert(texts(names@) =~= held.push(added));
                        }
                        proof {
                            let all = texts(list@);
                            assert(all.take(j + 1) =~= all.take(j as int).push(added));
                            assert forall|name: Seq<char>| #[trigger]
                                texts(names@).contains(name) <==> before.contains(name) || all.take(
                                    j + 1,
                                ).contains(name) by {
                                lemma_push_contains(all.take(j as int), added, name);
                                lemma_push_contains(held, added, name);
                            }
                        }
                    }
                    assert(texts(list@).take(list@.len() as int) =~= texts(list@));
                }
                proof {
                    assert forall|name: Seq<char>| #[trigger]
                        texts(names@).contains(name) <==> excluded_by(
                            rules@,
                            r as int + 1,
                            zoom,
                            name,
                        ) by {
                        if excluded_by(rules@, r as int, zoom, name) {
                            let k = choose|k: int|
                                0 <= k < r && zoom < (#[trigger] rules@[k]).below_zoom && texts(
                                    rules@[k].exclude@,
                                ).contains(name);
                            assert(zoom < rules@[k].below_zoom);
                        }
                        if zoom < rules@[r as int].below_zoom && texts(
                            rules@[r as int].exclude@,
                        ).contains(name) {
                            assert(excluded_by(rules@, r as int + 1, zoom, name));
                        }
                    }
                }
            }
        }
    }
    ExcludedProperties { names }
}

proof fn lemma_push_contains(list: Seq<Seq<char>>, added: Seq<char>, name: Seq<char>)
    ensures
        list.push(added).contains(name) <==> list.contains(name) || added == name,
{
    let grown = list.push(added);
    if grown.contains(name) {
        let k = choose|k: int| 0 <= k < grown.len() && grown[k] == name;
        if k < list.len() {
            assert(list[k] == name);
        }
    }
    if list.contains(name) {
        let k = choose|k: int| 0 <= k < list.len() && list[k] == name;
        assert(grown[k] == name);
    }
    if added == name {
        assert(grown[list.len() as int] == name);
    }
}

/// The tables of a layer: keys, values, and the texts under which the values
/// are kept once.
pub struct Tables {
    pub keys: Seq<Seq<char>>,
    pub value_keys: Seq<Seq<char>>,
    pub values: Seq<ValueModel>,
}

/// The place of a text in a list.
pub open spec fn place_of(list: Seq<Seq<char>>, text: Seq<char>) -> Option<nat>
    decreases list.len(),
{
    if list.len() == 0 {
        None
    } else if list.last() == text {
        Some((list.len() - 1) as nat)
    } else {
        place_of(list.drop_last(), text)
    }
}

/// A list with a text in it: the list itself where it has the text.
pub open spec fn with_text(list: Seq<Seq<char>>, text: Seq<char>) -> Seq<Seq<char>> {
    if place_of(list, text) is Some {
        list
    } else {
        list.push(text)
    }
}

/// A place as a tag.
pub open spec fn tag_word(place: Option<nat>) -> u32 {
    (place->0 % 0x1_0000_0000) as u32
}

/// The tables with one more property.
pub open spec fn with_property(t: Tables, name: Seq<char>, json: Json) -> Tables {
    let key = value_key(json);
    Tables {
        keys: with_text(t.keys, name),
        value_keys: with_text(t.value_keys, key),
        values: if place_of(t.value_keys, key) is Some {
            t.values
        } else {
            t.values.push(tile_value(json))
        },
    }
}

/// The two tags of a property.
pub open spec fn property_tags(t: Tables, name: Seq<char>, json: Json) -> Seq<u32> {
    let after = with_property(t, name, json);
    seq![
        tag_word(place_of(after.keys, name)),
        tag_word(place_of(after.value_keys, value_key(json))),
    ]
}

/// The tables and the tags after some properties of a feature.
pub open spec fn with_properties(
    t: Tables,
    fields: Seq<(Seq<char>, Json)>,
    layer: Option<LayerConfig>,
    zoom: u8,
) -> (Tables, Seq<u32>)
    decreases fields.len(),
{
    if fields.len() == 0 {
        (t, Seq::empty())
    } else {
        let (before, tags) = with_properties(t, fields.drop_last(), layer, zoom);
        let (name, json) = fields.last();
        if excludes(layer, zoom, name) {
            (before, tags)
        } else {
            (with_property(before, name, json), tags + property_tags(before, name, json))
        }
    }
}

/// A feature to encode: its geometry in tile coordinates, and its properties.
#[derive(Debug)]
pub struct FeatureData {
    pub id: i64,
    pub geometry: TileShape,
    pub properties: Value,
    pub layer_name: String,
}

/// A feature of a tile.
#[derive(Debug)]
pub struct TileFeature {
    pub id: u64,
    pub tags: Vec<u32>,
    pub kind: GeomType,
    pub geometry: Vec<u32>,
}

/// What a feature of a tile is.
pub struct FeatureModel {
    pub id: u64,
    pub tags: Seq<u32>,
    pub kind: GeomType,
    pub geometry: Seq<u32>,
}

impl TileFeature {
    pub open spec fn model(self) -> FeatureModel {
        FeatureModel {
            id: self.id,
            tags: self.tags@,
            kind: self.kind,
            geometry: self.geometry@,
        }
    }
}

/// What some features of a tile are.
pub open spec fn feature_models(features: Seq<TileFeature>) -> Seq<FeatureModel> {
    Seq::new(features.len(), |i: int| features[i].model())
}

/// A feature number as an unsigned one with the same bits.
pub open spec fn feature_number(id: i64) -> u64 {
    if id < 0 {
        (id + 0x1_0000_0000_0000_0000) as u64
    } else {
        id as u64
    }
}

/// The properties of a feature; only an object has any.
pub open spec fn property_fields(json: Json) -> Seq<(Seq<char>, Json)> {
    match json {
        Json::Object(fields) => fields,
        _ => Seq::empty(),
    }
}

/// The commands for a feature's geometry.
pub open spec fn feature_commands(f: FeatureData) -> Seq<u32> {
    geometry_commands(f.geometry.kind, nested(f.geometry.rings@))
}

/// The tables and the features of a layer after some features. A feature
/// without commands is left out, tags and all.
pub open spec fn with_features(
    features: Seq<FeatureData>,
    layer: Option<LayerConfig>,
    zoom: u8,
) -> (Tables, Seq<FeatureModel>)
    decreases features.len(),
{
    if features.len() == 0 {
        (
            Tables { keys: Seq::empty(), value_keys: Seq::empty(), values: Seq::empty() },
            Seq::empty(),
        )
    } else {
        let (before, done) = with_features(features.drop_last(), layer, zoom);
        let f = features.last();
        if feature_commands(f).len() == 0 {
            (before, done)
        } else {
            let (after, tags) = with_properties(
                before,
                property_fields(json_of(f.properties)),
                layer,
                zoom,
            );
            (
                after,
                done.push(
                    FeatureModel {
                        id: feature_number(f.id),
                        tags,
                        kind: feature_kind(f.geometry.kind),
                        geometry: feature_commands(f),
                    },
                ),
            )
        }
    }
}

/// A layer of a tile.
#[derive(Debug)]
pub struct TileLayer {
    pub name: String,
    pub features: Vec<TileFeature>,
    pub keys: Vec<String>,
    pub values: Vec<TileValue>,
}

/// What a layer of a tile is.
pub struct LayerModel {
    pub name: Seq<char>,
    pub features: Seq<FeatureModel>,
    pub keys: Seq<Seq<char>>,
    pub values: Seq<ValueModel>,
}

impl TileLayer {
    pub open spec fn model(self) -> LayerModel {
        LayerModel {
            name: self.name@,
            features: feature_models(self.features@),
            keys: texts(self.keys@),
            values: value_models(self.values@),
        }
    }
}

/// The layer for some features; none where no feature has commands.
pub open spec fn layer_of(
    name: Seq<char>,
    features: Seq<FeatureData>,
    layer: Option<LayerConfig>,
    zoom: u8,
) -> Option<LayerModel> {
    let (tables, done) = with_features(features, layer, zoom);
    if done.len() == 0 {
        None
    } else {
        Some(LayerModel { name, features: done, keys: tables.keys, values: tables.values })
    }
}

fn find_place(list: &Vec<String>, text: &str) -> (place: Option<usize>)
    ensures
        match place {
            Some(i) => place_of(texts(list@), text@) == Some(i as nat) && i < list@.len(),
            None => place_of(texts(list@), text@) is None,
        },
{
    let ghost all = texts(list@);
    let mut i: usize = list.len();
    assert(all.take(i as int) =~= all);
    while i > 0
        invariant
            i <= list@.len(),
            all == texts(list@),
            place_of(all, text@) == place_of(all.take(i as int), text@),
        decreases i,
    {
        proof {
            assert(all.take(i as int).last() == all[i - 1]);
            assert(all.take(i as int).drop_last() =~= all.take(i - 1));
        }
        if same_text(list[i - 1].as_str(), text) {
            return Some(i - 1);
        }
        i = i - 1;
    }
    None
}

/// The tables of a layer under construction.
struct TableBuilder {
    keys: Vec<String>,
    value_keys: Vec<String>,
    values: Vec<TileValue>,
}

impl TableBuilder {
    spec fn model(self) -> Tables {
        Tables {
            keys: texts(self.keys@),
            value_keys: texts(self.value_keys@),
            values: value_models(self.values@),
        }
    }

    fn add_property(&mut self, name: &str, value: &Value) -> (tags: (u32, u32))
        ensures
            final(self).model() == with_property(old(self).model(), name@, json_of(*value)),
            seq![tags.0, tags.1] == property_tags(old(self).model(), name@, json_of(*value)),
    {
        let ghost before = self.model();
        let ghost json = json_of(*value);
        let key_place: usize = match find_place(&self.keys, name) {
            Some(i) => i,
            None => {
                let i: usize = self.keys.len();
                self.keys.push(name.to_owned());
                assert(texts(self.keys@) =~= before.keys.push(name@));
                i
            },
        };
        let key: String = value_to_string(value);
        let value_place: usize = match find_place(&self.value_keys, key.as_str()) {
            Some(i) => i,
            None => {
                let i: usize = self.value_keys.len();
                self.values.push(json_to_mvt_value(value));
                self.value_keys.push(key);
                assert(texts(self.value_keys@) =~= before.value_keys.push(value_key(json)));
                assert(value_models(self.values@) =~= before.values.push(tile_value(json)));
                i
            },
        };
        let tags: (u32, u32) = (
            (key_place as u64 % 0x1_0000_0000) as u32,
            (value_place as u64 % 0x1_0000_0000) as u32,
        );
        assert(before.keys.push(name@).last() == name@);
        assert(before.value_keys.push(value_key(json)).last() == value_key(json));
        assert(seq![tags.0, tags.1] =~= property_tags(before, name@, json));
        tags
    }

    fn add_properties(
        &mut self,
        properties: &Value,
        excluded: &ExcludedProperties,
        Ghost(layer): Ghost<Option<LayerConfig>>,
        Ghost(zoom): Ghost<u8>,
    ) -> (tags: Vec<u32>)
        requires
            forall|name: Seq<char>| #[trigger]
                texts(excluded.names@).contains(name) <==> excludes(layer, zoom, name),
        ensures
            (final(self).model(), tags@) == with_properties(
                old(self).model(),
                property_fields(json_of(*properties)),
                layer,
                zoom,
            ),
    {
        let ghost before = self.model();
        let ghost all = property_fields(json_of(*properties));
        let mut tags: Vec<u32> = Vec::new();
        assert(tags@ =~= Seq::<u32>::empty());
        if let Some(fields) = json_fields(properties) {
            assert(all.take(0) =~= Seq::<(Seq<char>, Json)>::empty());
            for i in 0..fields.len()
                invariant
                    all == borrowed_models(fields@),
                    forall|name: Seq<char>| #[trigger]
                        texts(excluded.names@).contains(name) <==> excludes(layer, zoom, name),
                    (self.model(), tags@) == with_properties(
                        before,
                        all.take(i as int),
                        layer,
                        zoom,
                    ),
            {
                let ghost held = tags@;
                proof {
                    assert(all.take(i + 1).last() == all[i as int]);
                    assert(all.take(i + 1).drop_last() =~= all.take(i as int));
                }
                let (name, value): (&String, &Value) = fields[i];
                if !excluded.contains(name.as_str()) {
                    let (key_tag, value_tag): (u32, u32) = self.add_property(
                        name.as_str(),
                        value,
                    );
                    tags.push(key_tag);
                    tags.push(value_tag);
                    assert(tags@ =~= held + seq![key_tag, value_tag]);
                }
            }
            assert(all.take(all.len() as int) =~= all);
        }
        tags
    }
}

fn feature_number_of(id: i64) -> (number: u64)
    ensures
        number == feature_number(id),
{
    if id < 0 {
        (id as i128 + 0x1_0000_0000_0000_0000) as u64
    } else {
        id as u64
    }
}

/// Build the layer for some features.
#[verifier::loop_isolation(false)]
pub fn build_layer(
    name: &str,
    features: &Vec<FeatureData>,
    layer_cfg: Option<&LayerConfig>,
    zoom: u8,
) -> (layer: Option<TileLayer>)
    requires
        forall|i: int|
            0 <= i < features@.len() ==> (#[trigger] features@[i]).geometry.steps_fit(),
    ensures
        match layer {
            Some(layer) => layer_of(name@, features@, deref_option(layer_cfg), zoom) == Some(
                layer.model(),
            ),
            None => layer_of(name@, features@, deref_option(layer_cfg), zoom) is None,
        },
{
    let ghost cfg = deref_option(layer_cfg);
    let excluded: ExcludedProperties = compute_excluded_properties(layer_cfg, zoom);
    let mut tables: TableBuilder = TableBuilder {
        keys: Vec::new(),
        value_keys: Vec::new(),
        values: Vec::new(),
    };
    let mut done: Vec<TileFeature> = Vec::new();
    proof {
        assert(texts(tables.keys@) =~= Seq::empty());
        assert(texts(tables.value_keys@) =~= Seq::empty());
        assert(value_models(tables.values@) =~= Seq::empty());
        assert(feature_models(done@) =~= Seq::empty());
        assert(features@.take(0) =~= Seq::<FeatureData>::empty());
    }
    for i in 0..features.len()
        invariant
            (tables.model(), feature_models(done@)) == with_features(
                features@.take(i as int),
                cfg,
                zoom,
            ),
    {
        let ghost held = done@;
        proof {
            assert(features@.take(i + 1).last() == features@[i as int]);
            assert(features@.take(i + 1).drop_last() =~= features@.take(i as int));
        }
        let feature: &FeatureData = &features[i];
        let geometry: Vec<u32> = encode_geometry(&feature.geometry);
        if geometry.len() > 0 {
            let tags: Vec<u32> = tables.add_properties(
                &feature.properties,
                &excluded,
                Ghost(cfg),
                Ghost(zoom),
            );
            let encoded: TileFeature = TileFeature {
                id: feature_number_of(feature.id),
                tags,
                kind: feature_kind_of(feature.geometry.kind),
                geometry,
            };
            let ghost model = encoded.model();
            done.push(encoded);
            assert(feature_models(done@) =~= feature_models(held).push(model));
        }
    }
    assert(features@.take(features@.len() as int) =~= features@);
    if done.len() == 0 {
        return None;
    }
    Some(
        TileLayer { name: name.to_owned(), features: done, keys: tables.keys, values: tables.values },
    )
}

/// A place of a text is one at which the list holds it.
pub proof fn lemma_place(list: Seq<Seq<char>>, text: Seq<char>)
    ensures
        match place_of(list, text) {
            Some(i) => i < list.len() && list[i as int] == text,
            None => true,
        },
    decreases list.len(),
{
    if list.len() > 0 && list.last() != text {
        lemma_place(list.drop_last(), text);
    }
}

/// The first character of the text under which a value is kept.
spec fn value_mark(json: Json) -> char {
    match json {
        Json::Text(_) => 's',
        Json::Number(_) => 'n',
        Json::Bool(_) => 'b',
        _ => 'o',
    }
}

/// The text under which a value is kept decides the value: two properties share
/// one only where their tile values are the same.
pub proof fn lemma_value_text_decides_value(a: Json, b: Json)
    requires
        value_key(a) == value_key(b),
    ensures
        tile_value(a) == tile_value(b),
{
    reveal_strlit("s:");
    reveal_strlit("n:");
    reveal_strlit("b:");
    reveal_strlit("o:");
    reveal_strlit("true");
    reveal_strlit("false");
    let ka = value_key(a);
    let kb = value_key(b);
    assert("s:"@[0] == 's' && "n:"@[0] == 'n' && "b:"@[0] == 'b' && "o:"@[0] == 'o');
    assert(ka[0] == value_mark(a) && kb[0] == value_mark(b));
    match a {
        Json::Text(s) => {
            assert(ka.skip(2) =~= s);
            assert(b is Text);
            assert(kb.skip(2) =~= b->Text_0);
        },
        Json::Number(text) => {
            assert(ka.skip(2) =~= text);
            assert(b is Number);
            assert(kb.skip(2) =~= b->Number_0);
        },
        Json::Bool(x) => {
            assert(b is Bool);
            assert(ka.len() == kb.len());
        },
        _ => {
            assert(ka.skip(2) =~= json_text(a));
            assert(kb.skip(2) =~= json_text(b));
        },
    }
}

/// A text has a place in a list exactly where it stands in it.
pub proof fn lemma_what_is_listed_has_a_place(list: Seq<Seq<char>>, text: Seq<char>)
    ensures
        place_of(list, text) is Some <==> list.contains(text),
        with_text(list, text).contains(text),
        list.is_prefix_of(with_text(list, text)),
        with_text(list, text).len() == list.len() + if list.contains(text) {
            0nat
        } else {
            1
        },
    decreases list.len(),
{
    lemma_place(list, text);
    if list.len() > 0 {
        let front = list.drop_last();
        lemma_what_is_listed_has_a_place(front, text);
        if list.contains(text) {
            let k = choose|k: int| 0 <= k < list.len() && list[k] == text;
            if k < front.len() {
                assert(front[k] == text);
            }
        }
    }
    if place_of(list, text) is None {
        assert(with_text(list, text)[list.len() as int] == text);
    } else {
        assert(list[place_of(list, text)->0 as int] == text);
    }
    assert(list =~= with_text(list, text).subrange(0, list.len() as int));
}

/// A text and a truth value are themselves; a number is an integer where it is one,
/// else a double. A list or an object is its JSON text, and so is null.
pub proof fn lemma_values_keep_their_type(json: Json)
    ensures
        match json {
            Json::Text(s) => tile_value(json) == ValueModel::Text(s),
            Json::Bool(b) => tile_value(json) == ValueModel::Bool(b),
            Json::Number(text) => match (int_of(json), bits_of(json)) {
                (Some(i), _) => tile_value(json) == ValueModel::Int(i),
                (None, Some(bits)) => tile_value(json) == ValueModel::Double(bits),
                (None, None) => tile_value(json) == ValueModel::Text(text),
            },
            _ => tile_value(json) == ValueModel::Text(json_text(json)),
        },
{
}

/// A property is left out at a zoom where a rule of its layer names it and the zoom
/// lies below the rule's, and nowhere else.
pub proof fn lemma_rules_leave_properties_out(
    layer: Option<LayerConfig>,
    zoom: u8,
    name: Seq<char>,
)
    ensures
        layer is None || layer->0.property_rules is None ==> !excludes(layer, zoom, name),
        layer is Some && layer->0.property_rules is Some ==> (excludes(layer, zoom, name)
            <==> exists|r: int, i: int|
            #![trigger layer->0.property_rules->0@[r].exclude@[i]]
            0 <= r < layer->0.property_rules->0@.len() && 0 <= i
                < layer->0.property_rules->0@[r].exclude@.len() && zoom
                < layer->0.property_rules->0@[r].below_zoom
                && layer->0.property_rules->0@[r].exclude@[i]@ == name),
{
    if layer is Some && layer->0.property_rules is Some {
        let rules = layer->0.property_rules->0@;
        if excludes(layer, zoom, name) {
            let r = choose|r: int|
                0 <= r < rules.len() && zoom < (#[trigger] rules[r]).below_zoom && texts(
                    rules[r].exclude@,
                ).contains(name);
            let names = texts(rules[r].exclude@);
            let i = choose|i: int| 0 <= i < names.len() && names[i] == name;
            assert(rules[r].exclude@[i]@ == name);
        }
        if exists|r: int, i: int|
            #![trigger rules[r].exclude@[i]]
            0 <= r < rules.len() && 0 <= i < rules[r].exclude@.len() && zoom < rules[r].below_zoom
                && rules[r].exclude@[i]@ == name {
            let (r, i) = choose|r: int, i: int|
                #![trigger rules[r].exclude@[i]]
                0 <= r < rules.len() && 0 <= i < rules[r].exclude@.len() && zoom
                    < rules[r].below_zoom && rules[r].exclude@[i]@ == name;
            assert(texts(rules[r].exclude@)[i] == name);
            assert(zoom < rules[r].below_zoom && texts(rules[r].exclude@).contains(name));
        }
    }
}

/// A feature keeps its number; a negative one keeps its bits.
pub proof fn lemma_feature_numbers(id: i64)
    ensures
        id >= 0 ==> feature_number(id) == id,
        id < 0 ==> feature_number(id) == id + 0x1_0000_0000_0000_0000,
{
}

/// A feature has all fields of its properties where they are an object, and none
/// otherwise.
pub proof fn lemma_properties_are_fields(json: Json)
    ensures
        match json {
            Json::Object(fields) => property_fields(json) == fields,
            _ => property_fields(json).len() == 0,
        },
{
}

/// Values, features and layers are all that stands in them, and are taken one for
/// one.
pub proof fn lemma_layers_are_all_of_themselves(
    value: TileValue,
    feature: TileFeature,
    layer: TileLayer,
)
    ensures
        match (value, value.model()) {
            (TileValue::Text(s), ValueModel::Text(said)) => said == s@,
            (TileValue::Int(i), ValueModel::Int(said)) => said == i,
            (TileValue::Double(bits), ValueModel::Double(said)) => said == bits,
            (TileValue::Bool(b), ValueModel::Bool(said)) => said == b,
            _ => false,
        },
        feature.model().id == feature.id,
        feature.model().tags == feature.tags@,
        feature.model().kind == feature.kind,
        feature.model().geometry == feature.geometry@,
        layer.model().name == layer.name@,
        layer.model().features.len() == layer.features@.len(),
        forall|i: int|
            0 <= i < layer.features@.len() ==> #[trigger] layer.model().features[i]
                == layer.features@[i].model(),
        layer.model().keys.len() == layer.keys@.len(),
        forall|i: int|
            0 <= i < layer.keys@.len() ==> #[trigger] layer.model().keys[i] == layer.keys@[i]@,
        layer.model().values.len() == layer.values@.len(),
        forall|i: int|
            0 <= i < layer.values@.len() ==> #[trigger] layer.model().values[i]
                == layer.values@[i].model(),
{
}

/// A feature is drawn by the commands for all rings of its geometry.
pub proof fn lemma_feature_is_drawn_whole(f: FeatureData)
    ensures
        feature_commands(f) == geometry_commands(
            f.geometry.kind,
            Seq::new(f.geometry.rings@.len(), |i: int| f.geometry.rings@[i]@),
        ),
{
    assert(nested(f.geometry.rings@) =~= Seq::new(
        f.geometry.rings@.len(),
        |i: int| f.geometry.rings@[i]@,
    ));
}

} // verus!
