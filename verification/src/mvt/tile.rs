//! Whole tiles: layers in the protocol buffer wire format, gzipped.
use crate::config::LayerConfig;
use crate::mvt::geometry::GeomType;
use crate::mvt::layer::{
    build_layer, deref_option, feature_models, layer_of, value_models, FeatureData, FeatureModel,
    LayerModel, TileFeature, TileLayer, TileValue, ValueModel,
};
use crate::mvt::reading::{lemma_tile_reads_back, read_tile};
use crate::pmtiles::gzip::{gunzip_of, gzip, gzip_of, looks_gzipped};
use crate::pmtiles::header::{le_byte, le_byte_of};
use crate::pmtiles::varint::varint;
use crate::text::{same_text, texts};
use crate::tiles::TileCoord;
use vstd::prelude::*;
use vstd::utf8::encode_utf8;

verus! {

/// Units along one edge of a tile.
pub const EXTENT: u32 = 4096;

/// The version of the tile format.
pub const LAYER_VERSION: u32 = 2;

/// `prost::encoding::encode_varint` appends the LEB128 form of a number.
#[verifier::external_body]
fn encode_varint(value: u64, out: &mut Vec<u8>)
    ensures
        final(out)@ == old(out)@ + varint(value as nat),
{
    prost::encoding::encode_varint(value, out)
}

/// Tile encoding failed: the tile could not be compressed.
#[derive(Debug, Clone, Copy, PartialEq, Eq, Structural)]
pub struct TileError;

/// A numeric field: its number and type in one integer, then its value.
pub open spec fn number_field(tag: nat, value: nat) -> Seq<u8> {
    varint(8 * tag) + varint(value)
}

/// A field of bytes: its number and type in one integer, its length, and the
/// bytes.
pub open spec fn bytes_field(tag: nat, bytes: Seq<u8>) -> Seq<u8> {
    varint(8 * tag + 2) + varint(bytes.len()) + bytes
}

/// Integers one behind the other.
pub open spec fn packed_numbers(values: Seq<u32>) -> Seq<u8>
    decreases values.len(),
{
    if values.len() == 0 {
        Seq::empty()
    } else {
        packed_numbers(values.drop_last()) + varint(values.last() as nat)
    }
}

/// A field of integers; nothing where there are none.
pub open spec fn packed_field(tag: nat, values: Seq<u32>) -> Seq<u8> {
    if values.len() == 0 {
        Seq::empty()
    } else {
        bytes_field(tag, packed_numbers(values))
    }
}

/// The eight bytes of a double, lowest first.
pub open spec fn double_bytes(bits: u64) -> Seq<u8> {
    Seq::new(8, |k: int| le_byte(bits, k))
}

/// A signed number as the unsigned one with the same bits.
pub open spec fn unsigned(i: i64) -> nat {
    if i < 0 {
        (i + 0x1_0000_0000_0000_0000) as nat
    } else {
        i as nat
    }
}

/// A property value.
pub open spec fn value_bytes(value: ValueModel) -> Seq<u8> {
    match value {
        ValueModel::Text(s) => bytes_field(1, encode_utf8(s)),
        ValueModel::Double(bits) => varint(25) + double_bytes(bits),
        ValueModel::Int(i) => number_field(4, unsigned(i)),
        ValueModel::Bool(b) => number_field(
            7,
            if b {
                1
            } else {
                0
            },
        ),
    }
}

/// The number of a kind of feature.
pub open spec fn kind_number(kind: GeomType) -> nat {
    match kind {
        GeomType::Unknown => 0,
        GeomType::Point => 1,
        GeomType::Linestring => 2,
        GeomType::Polygon => 3,
    }
}

/// A feature.
pub open spec fn feature_bytes(f: FeatureModel) -> Seq<u8> {
    number_field(1, f.id as nat) + packed_field(2, f.tags) + number_field(3, kind_number(f.kind))
        + packed_field(4, f.geometry)
}

/// Features, each in a field of its own.
pub open spec fn features_bytes(features: Seq<FeatureModel>) -> Seq<u8>
    decreases features.len(),
{
    if features.len() == 0 {
        Seq::empty()
    } else {
        features_bytes(features.drop_last()) + bytes_field(2, feature_bytes(features.last()))
    }
}

/// Keys, each in a field of its own.
pub open spec fn keys_bytes(keys: Seq<Seq<char>>) -> Seq<u8>
    decreases keys.len(),
{
    if keys.len() == 0 {
        Seq::empty()
    } else {
        keys_bytes(keys.drop_last()) + bytes_field(3, encode_utf8(keys.last()))
    }
}

/// Values, each in a field of its own.
pub open spec fn values_bytes(values: Seq<ValueModel>) -> Seq<u8>
    decreases values.len(),
{
    if values.len() == 0 {
        Seq::empty()
    } else {
        values_bytes(values.drop_last()) + bytes_field(4, value_bytes(values.last()))
    }
}

/// A layer: name, features, keys, values, extent and version.
pub open spec fn layer_bytes(layer: LayerModel) -> Seq<u8> {
    bytes_field(1, encode_utf8(layer.name)) + features_bytes(layer.features) + keys_bytes(
        layer.keys,
    ) + values_bytes(layer.values) + number_field(5, 4096) + number_field(15, 2)
}

/// A tile: layers, each in a field of its own.
pub open spec fn tile_bytes(layers: Seq<LayerModel>) -> Seq<u8>
    decreases layers.len(),
{
    if layers.len() == 0 {
        Seq::empty()
    } else {
        tile_bytes(layers.drop_last()) + bytes_field(3, layer_bytes(layers.last()))
    }
}

fn put_number(out: &mut Vec<u8>, tag: u64, value: u64)
    requires
        tag < 16,
    ensures
        final(out)@ == old(out)@ + number_field(tag as nat, value as nat),
{
    let ghost before = out@;
    encode_varint(8 * tag, out);
    encode_varint(value, out);
    assert(out@ =~= before + number_field(tag as nat, value as nat));
}

fn put_bytes(out: &mut Vec<u8>, tag: u64, bytes: &[u8])
    requires
        tag < 16,
    ensures
        final(out)@ == old(out)@ + bytes_field(tag as nat, bytes@),
{
    let ghost before = out@;
    encode_varint(8 * tag + 2, out);
    encode_varint(bytes.len() as u64, out);
    out.extend_from_slice(bytes);
    assert(out@ =~= before + bytes_field(tag as nat, bytes@));
}

fn put_packed(out: &mut Vec<u8>, tag: u64, values: &Vec<u32>)
    requires
        tag < 16,
    ensures
        final(out)@ == old(out)@ + packed_field(tag as nat, values@),
{
    let ghost before = out@;
    if values.len() == 0 {
        assert(out@ =~= before + packed_field(tag as nat, values@));
        return;
    }
    let mut packed: Vec<u8> = Vec::new();
    assert(values@.take(0) =~= Seq::<u32>::empty());
    for i in 0..values.len()
        invariant
            packed@ == packed_numbers(values@.take(i as int)),
    {
        assert(values@.take(i + 1).last() == values@[i as int]);
        assert(values@.take(i + 1).drop_last() =~= values@.take(i as int));
        encode_varint(values[i] as u64, &mut packed);
    }
    assert(values@.take(values@.len() as int) =~= values@);
    put_bytes(out, tag, packed.as_slice());
}

fn encode_value(value: &TileValue) -> (out: Vec<u8>)
    ensures
        out@ == value_bytes(value.model()),
{
    let mut out: Vec<u8> = Vec::new();
    match value {
        TileValue::Text(s) => {
            put_bytes(&mut out, 1, s.as_str().as_bytes());
        },
        TileValue::Double(bits) => {
            encode_varint(25, &mut out);
            let ghost led = out@;
            for k in 0..8
                invariant
                    out@ == led + double_bytes(*bits).take(k as int),
            {
                out.push(le_byte_of(*bits, k));
                assert(out@ =~= led + double_bytes(*bits).take(k as int + 1));
            }
            assert(double_bytes(*bits).take(8) =~= double_bytes(*bits));
        },
        TileValue::Int(i) => {
            let number: u64 = if *i < 0 {
                (*i as i128 + 0x1_0000_0000_0000_0000) as u64
            } else {
                *i as u64
            };
            put_number(&mut out, 4, number);
        },
        TileValue::Bool(b) => {
            put_number(&mut out, 7, if *b { 1 } else { 0 });
        },
    }
    assert(out@ =~= value_bytes(value.model()));
    out
}

fn encode_feature(feature: &TileFeature) -> (out: Vec<u8>)
    ensures
        out@ == feature_bytes(feature.model()),
{
    let mut out: Vec<u8> = Vec::new();
    put_number(&mut out, 1, feature.id);
    put_packed(&mut out, 2, &feature.tags);
    let kind: u64 = match feature.kind {
        GeomType::Unknown => 0,
        GeomType::Point => 1,
        GeomType::Linestring => 2,
        GeomType::Polygon => 3,
    };
    put_number(&mut out, 3, kind);
    put_packed(&mut out, 4, &feature.geometry);
    assert(out@ =~= feature_bytes(feature.model()));
    out
}

fn encode_layer(layer: &TileLayer) -> (out: Vec<u8>)
    ensures
        out@ == layer_bytes(layer.model()),
{
    let mut out: Vec<u8> = Vec::new();
    put_bytes(&mut out, 1, layer.name.as_str().as_bytes());
    let ghost named = out@;
    assert(named =~= bytes_field(1, encode_utf8(layer.name@)));

    let ghost features = feature_models(layer.features@);
    assert(features.take(0) =~= Seq::<FeatureModel>::empty());
    assert(named + features_bytes(features.take(0)) =~= named);
    for i in 0..layer.features.len()
        invariant
            features == feature_models(layer.features@),
            out@ == named + features_bytes(features.take(i as int)),
    {
        assert(features.take(i + 1).last() == features[i as int]);
        assert(features.take(i + 1).drop_last() =~= features.take(i as int));
        let encoded: Vec<u8> = encode_feature(&layer.features[i]);
        put_bytes(&mut out, 2, encoded.as_slice());
        assert(out@ =~= named + features_bytes(features.take(i as int + 1)));
    }
    assert(features.take(features.len() as int) =~= features);

    let ghost with_features = out@;
    let ghost keys = texts(layer.keys@);
    assert(keys.take(0) =~= Seq::<Seq<char>>::empty());
    assert(with_features + keys_bytes(keys.take(0)) =~= with_features);
    for i in 0..layer.keys.len()
        invariant
            keys == texts(layer.keys@),
            out@ == with_features + keys_bytes(keys.take(i as int)),
    {
        assert(keys.take(i + 1).last() == keys[i as int]);
        assert(keys.take(i + 1).drop_last() =~= keys.take(i as int));
        put_bytes(&mut out, 3, layer.keys[i].as_str().as_bytes());
        assert(out@ =~= with_features + keys_bytes(keys.take(i as int + 1)));
    }
    assert(keys.take(keys.len() as int) =~= keys);

    let ghost with_keys = out@;
    let ghost values = value_models(layer.values@);
    assert(values.take(0) =~= Seq::<ValueModel>::empty());
    assert(with_keys + values_bytes(values.take(0)) =~= with_keys);
    for i in 0..layer.values.len()
        invariant
            values == value_models(layer.values@),
            out@ == with_keys + values_bytes(values.take(i as int)),
    {
        assert(values.take(i + 1).last() == values[i as int]);
        assert(values.take(i + 1).drop_last() =~= values.take(i as int));
        let encoded: Vec<u8> = encode_value(&layer.values[i]);
        put_bytes(&mut out, 4, encoded.as_slice());
        assert(out@ =~= with_keys + values_bytes(values.take(i as int + 1)));
    }
    assert(values.take(values.len() as int) =~= values);

    put_number(&mut out, 5, EXTENT as u64);
    put_number(&mut out, 15, LAYER_VERSION as u64);
    out
}

/// What some layers are.
pub open spec fn layer_models(layers: Seq<TileLayer>) -> Seq<LayerModel> {
    Seq::new(layers.len(), |i: int| layers[i].model())
}

/// The wire format of a tile.
pub fn encode_layers(layers: &Vec<TileLayer>) -> (out: Vec<u8>)
    ensures
        out@ == tile_bytes(layer_models(layers@)),
{
    let mut out: Vec<u8> = Vec::new();
    let ghost all = layer_models(layers@);
    assert(all.take(0) =~= Seq::<LayerModel>::empty());
    for i in 0..layers.len()
        invariant
            all == layer_models(layers@),
            out@ == tile_bytes(all.take(i as int)),
    {
        assert(all.take(i + 1).last() == all[i as int]);
        assert(all.take(i + 1).drop_last() =~= all.take(i as int));
        let encoded: Vec<u8> = encode_layer(&layers[i]);
        put_bytes(&mut out, 3, encoded.as_slice());
    }
    assert(all.take(all.len() as int) =~= all);
    out
}

/// The configuration of a layer: the last one of its name.
pub open spec fn config_of(layers: Seq<LayerConfig>, name: Seq<char>) -> Option<LayerConfig>
    decreases layers.len(),
{
    if layers.len() == 0 {
        None
    } else if layers.last().name@ == name {
        Some(layers.last())
    } else {
        config_of(layers.drop_last(), name)
    }
}

fn find_config<'a>(layers: &'a Vec<LayerConfig>, name: &str) -> (found: Option<&'a LayerConfig>)
    ensures
        deref_option(found) == config_of(layers@, name@),
{
    let mut i: usize = layers.len();
    assert(layers@.take(i as int) =~= layers@);
    while i > 0
        invariant
            i <= layers@.len(),
            config_of(layers@, name@) == config_of(layers@.take(i as int), name@),
        decreases i,
    {
        assert(layers@.take(i as int).last() == layers@[i - 1]);
        assert(layers@.take(i as int).drop_last() =~= layers@.take(i - 1));
        if same_text(layers[i - 1].name.as_str(), name) {
            return Some(&layers[i - 1]);
        }
        i = i - 1;
    }
    None
}

/// The features of each layer, under the layer's name.
pub type FeaturesByLayer = Vec<(String, Vec<FeatureData>)>;

/// The layers of a tile. A layer without anything to draw is left out.
pub open spec fn layers_of(
    features_by_layer: Seq<(String, Vec<FeatureData>)>,
    configs: Seq<LayerConfig>,
    zoom: u8,
) -> Seq<LayerModel>
    decreases features_by_layer.len(),
{
    if features_by_layer.len() == 0 {
        Seq::empty()
    } else {
        let front = layers_of(features_by_layer.drop_last(), configs, zoom);
        let (name, features) = features_by_layer.last();
        match layer_of(name@, features@, config_of(configs, name@), zoom) {
            Some(layer) => front.push(layer),
            None => front,
        }
    }
}

/// The steps of all geometries are ones that can be written.
pub open spec fn features_fit(features_by_layer: Seq<(String, Vec<FeatureData>)>) -> bool {
    forall|i: int, j: int|
        0 <= i < features_by_layer.len() && 0 <= j < features_by_layer[i].1@.len() ==> (
        #[trigger] features_by_layer[i].1@[j]).geometry.steps_fit()
}

/// A tile is gzipped, and a client that unpacks and reads it finds the layers.
pub open spec fn holds_layers(tile: Seq<u8>, layers: Seq<LayerModel>) -> bool {
    &&& looks_gzipped(tile)
    &&& gunzip_of(tile) is Some
    &&& read_tile(gunzip_of(tile)->0) == Some(layers)
}

/// Encode a set of features into a gzipped tile with layer-specific settings
/// for property filtering. The layers come in the order given.
pub fn encode_tile_with_config(
    tile_coord: &TileCoord,
    features_by_layer: &FeaturesByLayer,
    layer_configs: &Vec<LayerConfig>,
) -> (res: Result<Vec<u8>, TileError>)
    requires
        features_fit(features_by_layer@),
    ensures
        ({
            let layers = layers_of(features_by_layer@, layer_configs@, tile_coord.z);
            match res {
                Ok(tile) => gzip_of(tile_bytes(layers)) == Some(tile@) && holds_layers(tile@, layers),
                Err(_) => gzip_of(tile_bytes(layers)) is None,
            }
        }),
{
    let layers: Vec<TileLayer> = build_layers(tile_coord.z, features_by_layer, layer_configs);
    let bytes: Vec<u8> = encode_layers(&layers);
    proof {
        assert(bytes.len() <= usize::MAX);
        lemma_tile_reads_back(layer_models(layers@));
    }
    match gzip(bytes.as_slice()) {
        Ok(tile) => Ok(tile),
        Err(_) => Err(TileError),
    }
}

/// Build the layers of a tile.
pub fn build_layers(
    zoom: u8,
    features_by_layer: &FeaturesByLayer,
    layer_configs: &Vec<LayerConfig>,
) -> (layers: Vec<TileLayer>)
    requires
        features_fit(features_by_layer@),
    ensures
        layer_models(layers@) == layers_of(features_by_layer@, layer_configs@, zoom),
{
    let mut layers: Vec<TileLayer> = Vec::new();
    let ghost all = features_by_layer@;
    assert(all.take(0) =~= Seq::<(String, Vec<FeatureData>)>::empty());
    assert(layer_models(layers@) =~= Seq::<LayerModel>::empty());
    for i in 0..features_by_layer.len()
        invariant
            all == features_by_layer@,
            features_fit(all),
            layer_models(layers@) == layers_of(all.take(i as int), layer_configs@, zoom),
    {
        let ghost held = layers@;
        proof {
            assert(all.take(i + 1).last() == all[i as int]);
            assert(all.take(i + 1).drop_last() =~= all.take(i as int));
        }
        let name: &String = &features_by_layer[i].0;
        let features: &Vec<FeatureData> = &features_by_layer[i].1;
        assert forall|j: int| 0 <= j < features@.len() implies (
        #[trigger] features@[j]).geometry.steps_fit() by {
            assert(all[i as int].1@[j] == features@[j]);
        }
        let config: Option<&LayerConfig> = find_config(layer_configs, name.as_str());
        if let Some(layer) = build_layer(name.as_str(), features, config, zoom) {
            let ghost model = layer.model();
            layers.push(layer);
            assert(layer_models(layers@) =~= layer_models(held).push(model));
        }
    }
    assert(all.take(all.len() as int) =~= all);
    layers
}

/// Encode a set of features into a gzipped tile.
pub fn encode_tile(tile_coord: &TileCoord, features_by_layer: &FeaturesByLayer) -> (res: Result<
    Vec<u8>,
    TileError,
>)
    requires
        features_fit(features_by_layer@),
    ensures
        ({
            let layers = layers_of(features_by_layer@, Seq::empty(), tile_coord.z);
            match res {
                Ok(tile) => gzip_of(tile_bytes(layers)) == Some(tile@) && holds_layers(tile@, layers),
                Err(_) => gzip_of(tile_bytes(layers)) is None,
            }
        }),
{
    let none: Vec<LayerConfig> = Vec::new();
    encode_tile_with_config(tile_coord, features_by_layer, &none)
}

/// How much more to simplify at a zoom than at a source's highest: twice as much
/// for each zoom below it.
pub open spec fn simplification_factor(zoom: u8, max_zoom: u8) -> nat {
    if zoom >= max_zoom {
        1
    } else {
        vstd::arithmetic::power2::pow2((max_zoom - zoom) as nat)
    }
}

/// The simplification tolerance at a zoom of a source: the layer's own, by the
/// bits of a double, and the factor to multiply it with. None where nothing is
/// simplified.
pub fn simplification_tolerance(layer_cfg: Option<&LayerConfig>, zoom: u8, max_zoom: u8) -> (
    tolerance: Option<(u64, u64)>)
    requires
        max_zoom - zoom < 64,
    ensures
        match deref_option(layer_cfg) {
            Some(layer) => match layer.simplify_tolerance {
                Some(bits) => tolerance == Some((bits, simplification_factor(zoom, max_zoom) as u64))
                    && simplification_factor(zoom, max_zoom) <= u64::MAX,
                None => tolerance is None,
            },
            None => tolerance is None,
        },
{
    let layer: &LayerConfig = match layer_cfg {
        Some(layer) => layer,
        None => {
            return None;
        },
    };
    match layer.simplify_tolerance {
        None => None,
        Some(bits) => {
            let exponent: u64 = if zoom >= max_zoom { 0 } else { (max_zoom - zoom) as u64 };
            proof {
                vstd::arithmetic::power2::lemma2_to64();
                vstd::bits::lemma_u64_pow2_no_overflow(exponent as nat);
                vstd::bits::lemma_u64_shl_is_mul(1, exponent);
            }
            Some((bits, 1u64 << exponent))
        },
    }
}

/// At a source's highest zoom a layer's tolerance counts as it is; each zoom below
/// doubles it.
pub proof fn lemma_simplification_doubles(zoom: u8, max_zoom: u8)
    requires
        zoom < max_zoom,
    ensures
        simplification_factor(max_zoom, max_zoom) == 1,
        simplification_factor(zoom, max_zoom) == 2 * simplification_factor(
            (zoom + 1) as u8,
            max_zoom,
        ),
{
    vstd::arithmetic::power2::lemma2_to64();
    vstd::arithmetic::power2::lemma_pow2_unfold((max_zoom - zoom) as nat);
}

/// A layer's configuration is the last one of its name; a layer has none only where
/// no configuration has its name.
pub proof fn lemma_last_configuration_counts(layers: Seq<LayerConfig>, name: Seq<char>)
    ensures
        match config_of(layers, name) {
            None => forall|i: int| 0 <= i < layers.len() ==> (#[trigger] layers[i]).name@ != name,
            Some(config) => exists|i: int|
                0 <= i < layers.len() && (#[trigger] layers[i]).name@ == name && layers[i] == config
                    && forall|k: int| i < k < layers.len() ==> (#[trigger] layers[k]).name@ != name,
        },
    decreases layers.len(),
{
    if layers.len() > 0 {
        let front = layers.drop_last();
        let n = layers.len() - 1;
        lemma_last_configuration_counts(front, name);
        if layers[n].name@ != name {
            match config_of(front, name) {
                None => {
                    assert forall|i: int| 0 <= i < layers.len() implies (#[trigger] layers[i]).name@
                        != name by {
                        if i < n {
                            assert(front[i] == layers[i]);
                        }
                    }
                },
                Some(config) => {
                    let i = choose|i: int|
                        0 <= i < front.len() && (#[trigger] front[i]).name@ == name && front[i]
                            == config && forall|k: int|
                            i < k < front.len() ==> (#[trigger] front[k]).name@ != name;
                    assert forall|k: int| i < k < layers.len() implies (#[trigger] layers[k]).name@
                        != name by {
                        if k < n {
                            assert(front[k] == layers[k]);
                        }
                    }
                    assert(layers[i].name@ == name && layers[i] == config);
                },
            }
        }
    }
}

/// Each layer is made of its own features by itself, and those with anything to draw
/// come in the order given.
pub proof fn lemma_layers_one_by_one(
    a: Seq<(String, Vec<FeatureData>)>,
    b: Seq<(String, Vec<FeatureData>)>,
    one: (String, Vec<FeatureData>),
    configs: Seq<LayerConfig>,
    zoom: u8,
)
    ensures
        layers_of(a + b, configs, zoom) == layers_of(a, configs, zoom) + layers_of(
            b,
            configs,
            zoom,
        ),
        match layer_of(one.0@, one.1@, config_of(configs, one.0@), zoom) {
            Some(layer) => layers_of(seq![one], configs, zoom) == seq![layer],
            None => layers_of(seq![one], configs, zoom).len() == 0,
        },
    decreases b.len(),
{
    assert(seq![one].drop_last() =~= Seq::<(String, Vec<FeatureData>)>::empty());
    assert(layers_of(Seq::<(String, Vec<FeatureData>)>::empty(), configs, zoom) =~= Seq::<
        LayerModel,
    >::empty());
    match layer_of(one.0@, one.1@, config_of(configs, one.0@), zoom) {
        Some(layer) => {
            assert(layers_of(seq![one], configs, zoom) =~= seq![layer]);
        },
        None => {},
    }
    if b.len() == 0 {
        assert(a + b =~= a);
        assert(layers_of(a, configs, zoom) + layers_of(b, configs, zoom) =~= layers_of(
            a,
            configs,
            zoom,
        ));
    } else {
        lemma_layers_one_by_one(a, b.drop_last(), one, configs, zoom);
        assert((a + b).drop_last() =~= a + b.drop_last());
        assert((a + b).last() == b.last());
        assert(layers_of(a + b, configs, zoom) =~= layers_of(a, configs, zoom) + layers_of(
            b,
            configs,
            zoom,
        ));
    }
}

/// The field numbers of the wire format. In a value, a text is field 1, a double
/// field 3, an integer field 4 and a truth value field 7; in a feature, its number,
/// tags, kind and geometry are fields 1 to 4; a tile keeps each layer in field 3, and
/// a layer its name, features, keys and values in fields 1 to 4, its extent in field 5
/// and its version in field 15. A field's number is eight times as large on the wire,
/// and what has a length counts two more there, a double one more.
pub proof fn lemma_fields_are_numbered(
    value: ValueModel,
    f: FeatureModel,
    layer: LayerModel,
    tag: nat,
    number: nat,
    bytes: Seq<u8>,
)
    ensures
        match value {
            ValueModel::Text(s) => value_bytes(value) == varint(10) + varint(encode_utf8(s).len())
                + encode_utf8(s),
            ValueModel::Double(bits) => value_bytes(value).take(varint(25).len() as int) == varint(
                25,
            ) && value_bytes(value).len() == varint(25).len() + 8,
            ValueModel::Int(i) => value_bytes(value) == varint(32) + varint(
                if i < 0 {
                    (i + 0x1_0000_0000_0000_0000) as nat
                } else {
                    i as nat
                },
            ),
            ValueModel::Bool(b) => value_bytes(value) == varint(56) + varint(
                if b {
                    1
                } else {
                    0
                },
            ),
        },
        number_field(tag, number) == varint(8 * tag) + varint(number),
        bytes_field(tag, bytes) == varint(8 * tag + 2) + varint(bytes.len()) + bytes,
        feature_bytes(f) == number_field(1, f.id as nat) + packed_field(2, f.tags) + number_field(
            3,
            match f.kind {
                GeomType::Unknown => 0,
                GeomType::Point => 1,
                GeomType::Linestring => 2,
                GeomType::Polygon => 3,
            },
        ) + packed_field(4, f.geometry),
        layer_bytes(layer) == bytes_field(1, encode_utf8(layer.name)) + features_bytes(
            layer.features,
        ) + keys_bytes(layer.keys) + values_bytes(layer.values) + number_field(5, 4096)
            + number_field(15, 2),
        features_bytes(seq![f]) == bytes_field(2, feature_bytes(f)),
        values_bytes(seq![value]) == bytes_field(4, value_bytes(value)),
        keys_bytes(seq![layer.name]) == bytes_field(3, encode_utf8(layer.name)),
        tile_bytes(seq![layer]) == bytes_field(3, layer_bytes(layer)),
{
    assert(seq![f].drop_last() =~= Seq::<FeatureModel>::empty());
    assert(seq![value].drop_last() =~= Seq::<ValueModel>::empty());
    assert(seq![layer.name].drop_last() =~= Seq::<Seq<char>>::empty());
    assert(seq![layer].drop_last() =~= Seq::<LayerModel>::empty());
    assert(features_bytes(Seq::empty()) =~= Seq::<u8>::empty());
    assert(values_bytes(Seq::empty()) =~= Seq::<u8>::empty());
    assert(keys_bytes(Seq::empty()) =~= Seq::<u8>::empty());
    assert(tile_bytes(Seq::empty()) =~= Seq::<u8>::empty());
    assert(features_bytes(seq![f]) =~= bytes_field(2, feature_bytes(f)));
    assert(values_bytes(seq![value]) =~= bytes_field(4, value_bytes(value)));
    assert(keys_bytes(seq![layer.name]) =~= bytes_field(3, encode_utf8(layer.name)));
    assert(tile_bytes(seq![layer]) =~= bytes_field(3, layer_bytes(layer)));
    if value is Double {
        assert(value_bytes(value).take(varint(25).len() as int) =~= varint(25));
    }
}

/// Up to a source's highest zoom each zoom below it simplifies twice as much as the
/// next; at the highest and beyond nothing is added.
pub proof fn lemma_highest_zoom_is_simplified_least(zoom: u8, max_zoom: u8)
    ensures
        zoom >= max_zoom ==> simplification_factor(zoom, max_zoom) == 1,
        zoom < max_zoom ==> simplification_factor(zoom, max_zoom) == vstd::arithmetic::power2::pow2(
            (max_zoom - zoom) as nat,
        ),
{
}

/// The layers of a tile are taken one for one.
pub proof fn lemma_layers_one_for_one(layers: Seq<TileLayer>)
    ensures
        layer_models(layers).len() == layers.len(),
        forall|i: int| 0 <= i < layers.len() ==> #[trigger] layer_models(layers)[i]
            == layers[i].model(),
{
}

} // verus!
