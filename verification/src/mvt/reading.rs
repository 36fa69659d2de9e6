//! Reading tiles: what a client finds in the bytes of a tile.
//!
//! Nothing here runs. It states what the wire format means, and that a tile
//! means what it was made from.
use crate::mvt::geometry::GeomType;
use crate::mvt::layer::{FeatureModel, LayerModel, ValueModel};
use crate::mvt::tile::{
    bytes_field, double_bytes, feature_bytes, features_bytes, keys_bytes, kind_number, layer_bytes,
    number_field, packed_field, packed_numbers, tile_bytes, unsigned, value_bytes, values_bytes,
};
use crate::pmtiles::header::{le64, lemma_bytes_of_word};
use crate::pmtiles::varint::{continued, lemma_varint_round_trip, varint, varint_at};
use vstd::prelude::*;
use vstd::utf8::{decode_utf8, encode_utf8, valid_utf8};

verus! {

/// What a field holds.
pub enum FieldValue {
    Number(u64),
    /// Eight bytes, as a double has.
    Eight(Seq<u8>),
    Bytes(Seq<u8>),
}

/// A field of a message.
pub struct Field {
    pub tag: u64,
    pub value: FieldValue,
}

/// The field that bytes begin with, and how many of them it takes.
pub open spec fn field_at(bytes: Seq<u8>) -> Option<(Field, nat)> {
    match varint_at(bytes) {
        Ok((key, used)) => {
            let rest = bytes.skip(used as int);
            if key % 8 == 0 {
                match varint_at(rest) {
                    Ok((n, more)) => Some(
                        (Field { tag: key / 8, value: FieldValue::Number(n) }, used + more),
                    ),
                    Err(_) => None,
                }
            } else if key % 8 == 1 && rest.len() >= 8 {
                Some((Field { tag: key / 8, value: FieldValue::Eight(rest.take(8)) }, used + 8))
            } else if key % 8 == 2 {
                match varint_at(rest) {
                    Ok((len, more)) => if more + len <= rest.len() {
                        Some(
                            (
                                Field {
                                    tag: key / 8,
                                    value: FieldValue::Bytes(
                                        rest.subrange(more as int, more + len as int),
                                    ),
                                },
                                used + more + len as nat,
                            ),
                        )
                    } else {
                        None
                    },
                    Err(_) => None,
                }
            } else {
                None
            }
        },
        Err(_) => None,
    }
}

/// The fields of a message.
pub open spec fn fields_of(bytes: Seq<u8>) -> Option<Seq<Field>>
    decreases bytes.len(),
{
    if bytes.len() == 0 {
        Some(Seq::empty())
    } else {
        match field_at(bytes) {
            Some((field, used)) => if 0 < used <= bytes.len() {
                match fields_of(bytes.skip(used as int)) {
                    Some(rest) => Some(seq![field] + rest),
                    None => None,
                }
            } else {
                None
            },
            None => None,
        }
    }
}

/// An integer that bytes begin with is not changed by what follows.
proof fn lemma_varint_prefix(a: Seq<u8>, tail: Seq<u8>)
    requires
        varint_at(a) is Ok,
    ensures
        varint_at(a + tail) == varint_at(a),
        0 < varint_at(a)->Ok_0.1 <= a.len(),
{
    let n = continued(a);
    lemma_continued_prefix(a, tail);
    assert((a + tail).take(n as int + 1) =~= a.take(n as int + 1));
}

proof fn lemma_continued_prefix(a: Seq<u8>, tail: Seq<u8>)
    requires
        continued(a) < a.len(),
    ensures
        continued(a + tail) == continued(a),
    decreases a.len(),
{
    assert((a + tail)[0] == a[0]);
    if a[0] >= 128 {
        assert((a + tail).drop_first() =~= a.drop_first() + tail);
        lemma_continued_prefix(a.drop_first(), tail);
    }
}

/// A field that bytes begin with is not changed by what follows.
proof fn lemma_field_prefix(a: Seq<u8>, tail: Seq<u8>)
    requires
        field_at(a) is Some,
    ensures
        field_at(a + tail) == field_at(a),
        field_at(a) matches Some((_, used)) ==> 0 < used <= a.len(),
{
    lemma_varint_prefix(a, tail);
    let (key, used) = varint_at(a)->Ok_0;
    let rest = a.skip(used as int);
    assert((a + tail).skip(used as int) =~= rest + tail);
    if key % 8 == 0 {
        lemma_varint_prefix(rest, tail);
    } else if key % 8 == 1 {
        assert((rest + tail).take(8) =~= rest.take(8));
    } else {
        lemma_varint_prefix(rest, tail);
        let (len, more) = varint_at(rest)->Ok_0;
        assert((rest + tail).subrange(more as int, more + len as int) =~= rest.subrange(
            more as int,
            more + len as int,
        ));
    }
}

/// Messages one behind the other have the fields of both.
proof fn lemma_fields_append(a: Seq<u8>, b: Seq<u8>)
    requires
        fields_of(a) is Some,
        fields_of(b) is Some,
    ensures
        fields_of(a + b) == Some(fields_of(a)->0 + fields_of(b)->0),
    decreases a.len(),
{
    if a.len() == 0 {
        assert(a + b =~= b);
        assert(fields_of(a)->0 + fields_of(b)->0 =~= fields_of(b)->0);
    } else {
        let (field, used) = field_at(a)->0;
        lemma_field_prefix(a, b);
        let rest = a.skip(used as int);
        assert((a + b).skip(used as int) =~= rest + b);
        lemma_fields_append(rest, b);
        assert((seq![field] + fields_of(rest)->0) + fields_of(b)->0 =~= seq![field] + (fields_of(
            rest,
        )->0 + fields_of(b)->0));
    }
}

/// Bytes that are one field are a message of that field.
proof fn lemma_one_field(bytes: Seq<u8>, field: Field)
    requires
        field_at(bytes) == Some((field, bytes.len())),
        bytes.len() > 0,
    ensures
        fields_of(bytes) == Some(seq![field]),
{
    assert(bytes.skip(bytes.len() as int) =~= Seq::<u8>::empty());
    assert(fields_of(Seq::<u8>::empty()) == Some(Seq::<Field>::empty()));
    assert(seq![field] + Seq::<Field>::empty() =~= seq![field]);
}

proof fn lemma_number_field(tag: nat, value: u64)
    requires
        tag < 16,
    ensures
        fields_of(number_field(tag, value as nat)) == Some(
            seq![Field { tag: tag as u64, value: FieldValue::Number(value) }],
        ),
{
    let key = (8 * tag) as u64;
    let bytes = number_field(tag, value as nat);
    lemma_varint_round_trip(key, varint(value as nat));
    lemma_varint_round_trip(value, Seq::empty());
    assert(varint(value as nat) + Seq::<u8>::empty() =~= varint(value as nat));
    assert(bytes.skip(varint(key as nat).len() as int) =~= varint(value as nat));
    lemma_one_field(bytes, Field { tag: tag as u64, value: FieldValue::Number(value) });
}

proof fn lemma_bytes_field(tag: nat, data: Seq<u8>)
    requires
        tag < 16,
        data.len() <= u64::MAX,
    ensures
        fields_of(bytes_field(tag, data)) == Some(
            seq![Field { tag: tag as u64, value: FieldValue::Bytes(data) }],
        ),
{
    let key = (8 * tag + 2) as u64;
    let bytes = bytes_field(tag, data);
    let rest = varint(data.len()) + data;
    assert(bytes =~= varint(key as nat) + rest);
    lemma_varint_round_trip(key, rest);
    lemma_varint_round_trip(data.len() as u64, data);
    let (k, used) = varint_at(bytes)->Ok_0;
    assert(bytes.skip(used as int) =~= rest);
    let more = varint(data.len()).len();
    assert(rest.subrange(more as int, more + data.len() as int) =~= data);
    lemma_one_field(bytes, Field { tag: tag as u64, value: FieldValue::Bytes(data) });
}

proof fn lemma_double_field(bits: u64)
    ensures
        fields_of(varint(25) + double_bytes(bits)) == Some(
            seq![Field { tag: 3, value: FieldValue::Eight(double_bytes(bits)) }],
        ),
{
    let bytes = varint(25) + double_bytes(bits);
    lemma_varint_round_trip(25, double_bytes(bits));
    let (k, used) = varint_at(bytes)->Ok_0;
    assert(bytes.skip(used as int) =~= double_bytes(bits));
    assert(double_bytes(bits).take(8) =~= double_bytes(bits));
    lemma_one_field(bytes, Field { tag: 3, value: FieldValue::Eight(double_bytes(bits)) });
}

/// The same field again and again, with different bytes.
pub open spec fn repeated(tag: u64, items: Seq<Seq<u8>>) -> Seq<Field> {
    Seq::new(items.len(), |i: int| Field { tag, value: FieldValue::Bytes(items[i]) })
}

/// The bytes of all fields with a tag.
pub open spec fn bytes_with(fields: Seq<Field>, tag: u64) -> Seq<Seq<u8>>
    decreases fields.len(),
{
    if fields.len() == 0 {
        Seq::empty()
    } else {
        let front = bytes_with(fields.drop_last(), tag);
        match fields.last().value {
            FieldValue::Bytes(data) => if fields.last().tag == tag {
                front.push(data)
            } else {
                front
            },
            _ => front,
        }
    }
}

/// The number in the last field with a tag.
pub open spec fn number_with(fields: Seq<Field>, tag: u64) -> Option<u64>
    decreases fields.len(),
{
    if fields.len() == 0 {
        None
    } else {
        match fields.last().value {
            FieldValue::Number(n) => if fields.last().tag == tag {
                Some(n)
            } else {
                number_with(fields.drop_last(), tag)
            },
            _ => number_with(fields.drop_last(), tag),
        }
    }
}

proof fn lemma_with_append(a: Seq<Field>, b: Seq<Field>, tag: u64)
    ensures
        bytes_with(a + b, tag) == bytes_with(a, tag) + bytes_with(b, tag),
        number_with(a + b, tag) == if number_with(b, tag) is Some {
            number_with(b, tag)
        } else {
            number_with(a, tag)
        },
    decreases b.len(),
{
    if b.len() == 0 {
        assert(a + b =~= a);
        assert(bytes_with(a, tag) + bytes_with(b, tag) =~= bytes_with(a, tag));
    } else {
        lemma_with_append(a, b.drop_last(), tag);
        assert((a + b).drop_last() =~= a + b.drop_last());
        assert((a + b).last() == b.last());
        assert(bytes_with(a + b, tag) =~= bytes_with(a, tag) + bytes_with(b, tag));
    }
}

proof fn lemma_with_repeated(of: u64, items: Seq<Seq<u8>>, tag: u64)
    ensures
        bytes_with(repeated(of, items), tag) == if of == tag {
            items
        } else {
            Seq::empty()
        },
        number_with(repeated(of, items), tag) is None,
    decreases items.len(),
{
    let fields = repeated(of, items);
    if items.len() > 0 {
        lemma_with_repeated(of, items.drop_last(), tag);
        assert(fields.drop_last() =~= repeated(of, items.drop_last()));
        assert(items.drop_last().push(items.last()) =~= items);
    } else {
        assert(items =~= Seq::<Seq<u8>>::empty());
    }
}

proof fn lemma_with_one(field: Field, tag: u64)
    ensures
        bytes_with(seq![field], tag) == (match field.value {
            FieldValue::Bytes(data) => if field.tag == tag {
                seq![data]
            } else {
                Seq::empty()
            },
            _ => Seq::<Seq<u8>>::empty(),
        }),
        number_with(seq![field], tag) == (match field.value {
            FieldValue::Number(n) => if field.tag == tag {
                Some(n)
            } else {
                None
            },
            _ => None,
        }),
{
    let all = seq![field];
    assert(all.drop_last() =~= Seq::<Field>::empty());
    assert(all.last() == field);
    assert(bytes_with(Seq::<Field>::empty(), tag) =~= Seq::<Seq<u8>>::empty());
    assert(number_with(Seq::<Field>::empty(), tag) is None);
    if field.value is Bytes && field.tag == tag {
        assert(bytes_with(all, tag) =~= seq![field.value->Bytes_0]);
    }
}

/// The integers that stand one behind the other.
pub open spec fn numbers_of(bytes: Seq<u8>) -> Option<Seq<u32>>
    decreases bytes.len(),
{
    if bytes.len() == 0 {
        Some(Seq::empty())
    } else {
        match varint_at(bytes) {
            Ok((n, used)) => if 0 < used <= bytes.len() && n <= u32::MAX {
                match numbers_of(bytes.skip(used as int)) {
                    Some(rest) => Some(seq![n as u32] + rest),
                    None => None,
                }
            } else {
                None
            },
            Err(_) => None,
        }
    }
}

/// The integers of all fields with a tag.
pub open spec fn numbers_in(items: Seq<Seq<u8>>) -> Option<Seq<u32>>
    decreases items.len(),
{
    if items.len() == 0 {
        Some(Seq::empty())
    } else {
        match (numbers_in(items.drop_last()), numbers_of(items.last())) {
            (Some(front), Some(last)) => Some(front + last),
            _ => None,
        }
    }
}

proof fn lemma_numbers_append(a: Seq<u8>, b: Seq<u8>)
    requires
        numbers_of(a) is Some,
        numbers_of(b) is Some,
    ensures
        numbers_of(a + b) == Some(numbers_of(a)->0 + numbers_of(b)->0),
    decreases a.len(),
{
    if a.len() == 0 {
        assert(a + b =~= b);
        assert(numbers_of(a)->0 + numbers_of(b)->0 =~= numbers_of(b)->0);
    } else {
        lemma_varint_prefix(a, b);
        let (n, used) = varint_at(a)->Ok_0;
        let rest = a.skip(used as int);
        assert((a + b).skip(used as int) =~= rest + b);
        lemma_numbers_append(rest, b);
        assert((seq![n as u32] + numbers_of(rest)->0) + numbers_of(b)->0 =~= seq![n as u32] + (
        numbers_of(rest)->0 + numbers_of(b)->0));
    }
}

proof fn lemma_packed_numbers(values: Seq<u32>)
    ensures
        numbers_of(packed_numbers(values)) == Some(values),
    decreases values.len(),
{
    if values.len() == 0 {
        assert(values =~= Seq::<u32>::empty());
    } else {
        let last = values.last();
        lemma_packed_numbers(values.drop_last());
        lemma_varint_round_trip(last as u64, Seq::empty());
        let one = varint(last as nat);
        assert(one + Seq::<u8>::empty() =~= one);
        assert(one.skip(one.len() as int) =~= Seq::<u8>::empty());
        assert(numbers_of(one) == Some(seq![last])) by {
            assert(numbers_of(Seq::<u8>::empty()) == Some(Seq::<u32>::empty()));
            assert(seq![last] + Seq::<u32>::empty() =~= seq![last]);
        }
        lemma_numbers_append(packed_numbers(values.drop_last()), one);
        assert(values.drop_last() + seq![last] =~= values);
    }
}

/// The bytes of a field of integers, if it is there.
pub open spec fn packed_items(values: Seq<u32>) -> Seq<Seq<u8>> {
    if values.len() == 0 {
        Seq::empty()
    } else {
        seq![packed_numbers(values)]
    }
}

proof fn lemma_packed_field(tag: nat, values: Seq<u32>)
    requires
        tag < 16,
        packed_numbers(values).len() <= u64::MAX,
    ensures
        fields_of(packed_field(tag, values)) == Some(repeated(tag as u64, packed_items(values))),
        numbers_in(packed_items(values)) == Some(values),
{
    lemma_packed_numbers(values);
    if values.len() == 0 {
        assert(repeated(tag as u64, packed_items(values)) =~= Seq::<Field>::empty());
        assert(values =~= Seq::<u32>::empty());
    } else {
        lemma_bytes_field(tag, packed_numbers(values));
        let items = packed_items(values);
        assert(repeated(tag as u64, items) =~= seq![
            Field { tag: tag as u64, value: FieldValue::Bytes(packed_numbers(values)) },
        ]);
        assert(items.drop_last() =~= Seq::<Seq<u8>>::empty());
        assert(numbers_in(Seq::<Seq<u8>>::empty()) == Some(Seq::<u32>::empty()));
        assert(Seq::<u32>::empty() + values =~= values);
    }
}

/// The kind of feature that a number stands for.
pub open spec fn kind_numbered(n: u64) -> Option<GeomType> {
    if n == 0 {
        Some(GeomType::Unknown)
    } else if n == 1 {
        Some(GeomType::Point)
    } else if n == 2 {
        Some(GeomType::Linestring)
    } else if n == 3 {
        Some(GeomType::Polygon)
    } else {
        None
    }
}

/// The feature that a message is.
pub open spec fn read_feature(bytes: Seq<u8>) -> Option<FeatureModel> {
    match fields_of(bytes) {
        Some(fields) => match (
            number_with(fields, 1),
            numbers_in(bytes_with(fields, 2)),
            number_with(fields, 3),
            numbers_in(bytes_with(fields, 4)),
        ) {
            (Some(id), Some(tags), Some(kind), Some(geometry)) => match kind_numbered(kind) {
                Some(kind) => Some(FeatureModel { id, tags, kind, geometry }),
                None => None,
            },
            _ => None,
        },
        None => None,
    }
}

/// A feature reads as what it was made from.
proof fn lemma_feature_reads_back(f: FeatureModel)
    requires
        feature_bytes(f).len() <= u64::MAX,
    ensures
        read_feature(feature_bytes(f)) == Some(f),
{
    let a = number_field(1, f.id as nat);
    let b = packed_field(2, f.tags);
    let c = number_field(3, kind_number(f.kind));
    let d = packed_field(4, f.geometry);
    let one = Field { tag: 1, value: FieldValue::Number(f.id) };
    let three = Field { tag: 3, value: FieldValue::Number(kind_number(f.kind) as u64) };
    let tags = repeated(2, packed_items(f.tags));
    let geometry = repeated(4, packed_items(f.geometry));
    assert(packed_numbers(f.tags).len() <= b.len());
    assert(packed_numbers(f.geometry).len() <= d.len());
    lemma_number_field(1, f.id);
    lemma_packed_field(2, f.tags);
    lemma_number_field(3, kind_number(f.kind) as u64);
    lemma_packed_field(4, f.geometry);
    lemma_fields_append(a, b);
    lemma_fields_append(a + b, c);
    lemma_fields_append(a + b + c, d);
    let fields = seq![one] + tags + seq![three] + geometry;
    assert(fields_of(feature_bytes(f)) == Some(fields));
    assert forall|tag: u64|
        bytes_with(fields, tag) == #[trigger] bytes_with(tags, tag) + bytes_with(geometry, tag)
            && number_with(fields, tag) == (if tag == 3 {
            Some(kind_number(f.kind) as u64)
        } else if tag == 1 {
            Some(f.id)
        } else {
            None
        }) by {
        lemma_with_one(one, tag);
        lemma_with_one(three, tag);
        lemma_with_repeated(2, packed_items(f.tags), tag);
        lemma_with_repeated(4, packed_items(f.geometry), tag);
        lemma_with_append(seq![one], tags, tag);
        lemma_with_append(seq![one] + tags, seq![three], tag);
        lemma_with_append(seq![one] + tags + seq![three], geometry, tag);
        assert(bytes_with(fields, tag) =~= bytes_with(tags, tag) + bytes_with(geometry, tag));
    }
    lemma_with_repeated(2, packed_items(f.tags), 2);
    lemma_with_repeated(4, packed_items(f.geometry), 2);
    lemma_with_repeated(2, packed_items(f.tags), 4);
    lemma_with_repeated(4, packed_items(f.geometry), 4);
    assert(bytes_with(tags, 1) == bytes_with(tags, 1));
    assert(bytes_with(tags, 3) == bytes_with(tags, 3));
    assert(bytes_with(fields, 2) =~= packed_items(f.tags));
    assert(bytes_with(fields, 4) =~= packed_items(f.geometry));
}

/// A number as the signed one with the same bits.
pub open spec fn signed(n: u64) -> i64 {
    if n >= 0x8000_0000_0000_0000 {
        (n - 0x1_0000_0000_0000_0000) as i64
    } else {
        n as i64
    }
}

/// The property value that a message is.
pub open spec fn read_value(bytes: Seq<u8>) -> Option<ValueModel> {
    match fields_of(bytes) {
        Some(fields) => if fields.len() == 1 {
            match fields[0].value {
                FieldValue::Bytes(data) => if fields[0].tag == 1 && valid_utf8(data) {
                    Some(ValueModel::Text(decode_utf8(data)))
                } else {
                    None
                },
                FieldValue::Eight(data) => if fields[0].tag == 3 {
                    Some(ValueModel::Double(le64(data, 0) as u64))
                } else {
                    None
                },
                FieldValue::Number(n) => if fields[0].tag == 4 {
                    Some(ValueModel::Int(signed(n)))
                } else if fields[0].tag == 7 {
                    Some(ValueModel::Bool(n != 0))
                } else {
                    None
                },
            }
        } else {
            None
        },
        None => None,
    }
}

/// A property value reads as what it was made from.
proof fn lemma_value_reads_back(value: ValueModel)
    requires
        value_bytes(value).len() <= u64::MAX,
    ensures
        read_value(value_bytes(value)) == Some(value),
{
    broadcast use {vstd::utf8::encode_utf8_valid_utf8, vstd::utf8::encode_utf8_decode_utf8};

    match value {
        ValueModel::Text(s) => {
            lemma_bytes_field(1, encode_utf8(s));
        },
        ValueModel::Double(bits) => {
            lemma_double_field(bits);
            lemma_bytes_of_word(bits);
            assert(le64(double_bytes(bits), 0) == bits);
        },
        ValueModel::Int(i) => {
            lemma_number_field(4, unsigned(i) as u64);
        },
        ValueModel::Bool(b) => {
            lemma_number_field(
                7,
                if b {
                    1
                } else {
                    0
                },
            );
        },
    }
}

/// The features that messages are.
pub open spec fn read_features(items: Seq<Seq<u8>>) -> Option<Seq<FeatureModel>>
    decreases items.len(),
{
    if items.len() == 0 {
        Some(Seq::empty())
    } else {
        match (read_features(items.drop_last()), read_feature(items.last())) {
            (Some(front), Some(last)) => Some(front.push(last)),
            _ => None,
        }
    }
}

/// The texts that bytes are.
pub open spec fn read_texts(items: Seq<Seq<u8>>) -> Option<Seq<Seq<char>>>
    decreases items.len(),
{
    if items.len() == 0 {
        Some(Seq::empty())
    } else {
        match read_texts(items.drop_last()) {
            Some(front) => if valid_utf8(items.last()) {
                Some(front.push(decode_utf8(items.last())))
            } else {
                None
            },
            None => None,
        }
    }
}

/// The property values that messages are.
pub open spec fn read_values(items: Seq<Seq<u8>>) -> Option<Seq<ValueModel>>
    decreases items.len(),
{
    if items.len() == 0 {
        Some(Seq::empty())
    } else {
        match (read_values(items.drop_last()), read_value(items.last())) {
            (Some(front), Some(last)) => Some(front.push(last)),
            _ => None,
        }
    }
}

/// The layer that a message is: of version 2, with 4096 units along an edge, and
/// with one name.
pub open spec fn read_layer(bytes: Seq<u8>) -> Option<LayerModel> {
    match fields_of(bytes) {
        Some(fields) => match (
            read_texts(bytes_with(fields, 1)),
            read_features(bytes_with(fields, 2)),
            read_texts(bytes_with(fields, 3)),
            read_values(bytes_with(fields, 4)),
        ) {
            (Some(names), Some(features), Some(keys), Some(values)) => if names.len() == 1
                && number_with(fields, 5) == Some(4096u64) && number_with(fields, 15) == Some(
                2u64,
            ) {
                Some(LayerModel { name: names[0], features, keys, values })
            } else {
                None
            },
            _ => None,
        },
        None => None,
    }
}

/// The layers that messages are.
pub open spec fn read_layers(items: Seq<Seq<u8>>) -> Option<Seq<LayerModel>>
    decreases items.len(),
{
    if items.len() == 0 {
        Some(Seq::empty())
    } else {
        match (read_layers(items.drop_last()), read_layer(items.last())) {
            (Some(front), Some(last)) => Some(front.push(last)),
            _ => None,
        }
    }
}

/// The layers that a tile holds.
pub open spec fn read_tile(bytes: Seq<u8>) -> Option<Seq<LayerModel>> {
    match fields_of(bytes) {
        Some(fields) => read_layers(bytes_with(fields, 3)),
        None => None,
    }
}

/// The messages of features.
pub open spec fn feature_items(features: Seq<FeatureModel>) -> Seq<Seq<u8>> {
    Seq::new(features.len(), |i: int| feature_bytes(features[i]))
}

/// The messages of keys.
pub open spec fn key_items(keys: Seq<Seq<char>>) -> Seq<Seq<u8>> {
    Seq::new(keys.len(), |i: int| encode_utf8(keys[i]))
}

/// The messages of property values.
pub open spec fn value_items(values: Seq<ValueModel>) -> Seq<Seq<u8>> {
    Seq::new(values.len(), |i: int| value_bytes(values[i]))
}

/// The messages of layers.
pub open spec fn layer_items(layers: Seq<LayerModel>) -> Seq<Seq<u8>> {
    Seq::new(layers.len(), |i: int| layer_bytes(layers[i]))
}

/// One more of a repeated field.
proof fn lemma_one_more(bytes: Seq<u8>, tag: nat, items: Seq<Seq<u8>>, item: Seq<u8>)
    requires
        tag < 16,
        item.len() <= u64::MAX,
        fields_of(bytes) == Some(repeated(tag as u64, items)),
    ensures
        fields_of(bytes + bytes_field(tag, item)) == Some(repeated(tag as u64, items.push(item))),
{
    lemma_bytes_field(tag, item);
    lemma_fields_append(bytes, bytes_field(tag, item));
    assert(repeated(tag as u64, items) + seq![
        Field { tag: tag as u64, value: FieldValue::Bytes(item) },
    ] =~= repeated(tag as u64, items.push(item)));
}

proof fn lemma_features(features: Seq<FeatureModel>)
    requires
        features_bytes(features).len() <= u64::MAX,
    ensures
        fields_of(features_bytes(features)) == Some(repeated(2, feature_items(features))),
        read_features(feature_items(features)) == Some(features),
    decreases features.len(),
{
    let items = feature_items(features);
    if features.len() == 0 {
        assert(repeated(2, items) =~= Seq::<Field>::empty());
        assert(features =~= Seq::<FeatureModel>::empty());
    } else {
        let front = features.drop_last();
        let item = feature_bytes(features.last());
        lemma_features(front);
        lemma_feature_reads_back(features.last());
        lemma_one_more(features_bytes(front), 2, feature_items(front), item);
        assert(items =~= feature_items(front).push(item));
        assert(items.drop_last() =~= feature_items(front));
        assert(front.push(features.last()) =~= features);
    }
}

proof fn lemma_keys(keys: Seq<Seq<char>>)
    requires
        keys_bytes(keys).len() <= u64::MAX,
    ensures
        fields_of(keys_bytes(keys)) == Some(repeated(3, key_items(keys))),
        read_texts(key_items(keys)) == Some(keys),
    decreases keys.len(),
{
    broadcast use {vstd::utf8::encode_utf8_valid_utf8, vstd::utf8::encode_utf8_decode_utf8};

    let items = key_items(keys);
    if keys.len() == 0 {
        assert(repeated(3, items) =~= Seq::<Field>::empty());
        assert(keys =~= Seq::<Seq<char>>::empty());
    } else {
        let front = keys.drop_last();
        let item = encode_utf8(keys.last());
        lemma_keys(front);
        lemma_one_more(keys_bytes(front), 3, key_items(front), item);
        assert(items =~= key_items(front).push(item));
        assert(items.drop_last() =~= key_items(front));
        assert(front.push(keys.last()) =~= keys);
    }
}

proof fn lemma_values(values: Seq<ValueModel>)
    requires
        values_bytes(values).len() <= u64::MAX,
    ensures
        fields_of(values_bytes(values)) == Some(repeated(4, value_items(values))),
        read_values(value_items(values)) == Some(values),
    decreases values.len(),
{
    let items = value_items(values);
    if values.len() == 0 {
        assert(repeated(4, items) =~= Seq::<Field>::empty());
        assert(values =~= Seq::<ValueModel>::empty());
    } else {
        let front = values.drop_last();
        let item = value_bytes(values.last());
        lemma_values(front);
        lemma_value_reads_back(values.last());
        lemma_one_more(values_bytes(front), 4, value_items(front), item);
        assert(items =~= value_items(front).push(item));
        assert(items.drop_last() =~= value_items(front));
        assert(front.push(values.last()) =~= values);
    }
}

/// The fields of a layer.
pub open spec fn layer_message(layer: LayerModel) -> Seq<Field> {
    repeated(1, seq![encode_utf8(layer.name)]) + repeated(2, feature_items(layer.features))
        + repeated(3, key_items(layer.keys)) + repeated(4, value_items(layer.values)) + seq![
        Field { tag: 5, value: FieldValue::Number(4096) },
    ] + seq![Field { tag: 15, value: FieldValue::Number(2) }]
}

proof fn lemma_layer_fields(layer: LayerModel)
    requires
        layer_bytes(layer).len() <= u64::MAX,
    ensures
        fields_of(layer_bytes(layer)) == Some(layer_message(layer)),
        read_features(feature_items(layer.features)) == Some(layer.features),
        read_texts(key_items(layer.keys)) == Some(layer.keys),
        read_values(value_items(layer.values)) == Some(layer.values),
{
    let name = bytes_field(1, encode_utf8(layer.name));
    let features = features_bytes(layer.features);
    let keys = keys_bytes(layer.keys);
    let values = values_bytes(layer.values);
    let extent = number_field(5, 4096);
    let version = number_field(15, 2);
    lemma_bytes_field(1, encode_utf8(layer.name));
    assert(repeated(1, seq![encode_utf8(layer.name)]) =~= seq![
        Field { tag: 1, value: FieldValue::Bytes(encode_utf8(layer.name)) },
    ]);
    lemma_features(layer.features);
    lemma_keys(layer.keys);
    lemma_values(layer.values);
    lemma_number_field(5, 4096);
    lemma_number_field(15, 2);
    lemma_fields_append(name, features);
    lemma_fields_append(name + features, keys);
    lemma_fields_append(name + features + keys, values);
    lemma_fields_append(name + features + keys + values, extent);
    lemma_fields_append(name + features + keys + values + extent, version);
}

proof fn lemma_layer_message(layer: LayerModel, tag: u64)
    ensures
        bytes_with(layer_message(layer), tag) == (if tag == 1 {
            seq![encode_utf8(layer.name)]
        } else if tag == 2 {
            feature_items(layer.features)
        } else if tag == 3 {
            key_items(layer.keys)
        } else if tag == 4 {
            value_items(layer.values)
        } else {
            Seq::empty()
        }),
        number_with(layer_message(layer), tag) == (if tag == 15 {
            Some(2u64)
        } else if tag == 5 {
            Some(4096u64)
        } else {
            None
        }),
{
    let a = repeated(1, seq![encode_utf8(layer.name)]);
    let b = repeated(2, feature_items(layer.features));
    let c = repeated(3, key_items(layer.keys));
    let d = repeated(4, value_items(layer.values));
    let five = Field { tag: 5, value: FieldValue::Number(4096) };
    let fifteen = Field { tag: 15, value: FieldValue::Number(2) };
    lemma_with_repeated(1, seq![encode_utf8(layer.name)], tag);
    lemma_with_repeated(2, feature_items(layer.features), tag);
    lemma_with_repeated(3, key_items(layer.keys), tag);
    lemma_with_repeated(4, value_items(layer.values), tag);
    lemma_with_one(five, tag);
    lemma_with_one(fifteen, tag);
    lemma_with_append(a, b, tag);
    lemma_with_append(a + b, c, tag);
    lemma_with_append(a + b + c, d, tag);
    lemma_with_append(a + b + c + d, seq![five], tag);
    lemma_with_append(a + b + c + d + seq![five], seq![fifteen], tag);
    let none = Seq::<Seq<u8>>::empty();
    let found = bytes_with(layer_message(layer), tag);
    assert(found == bytes_with(a, tag) + bytes_with(b, tag) + bytes_with(c, tag) + bytes_with(
        d,
        tag,
    ) + none + none);
    if tag == 1 {
        assert(found =~= seq![encode_utf8(layer.name)]);
    } else if tag == 2 {
        assert(found =~= feature_items(layer.features));
    } else if tag == 3 {
        assert(found =~= key_items(layer.keys));
    } else if tag == 4 {
        assert(found =~= value_items(layer.values));
    } else {
        assert(found =~= none);
    }
}

/// A layer reads as what it was made from.
pub proof fn lemma_layer_reads_back(layer: LayerModel)
    requires
        layer_bytes(layer).len() <= u64::MAX,
    ensures
        read_layer(layer_bytes(layer)) == Some(layer),
{
    broadcast use {vstd::utf8::encode_utf8_valid_utf8, vstd::utf8::encode_utf8_decode_utf8};

    lemma_layer_fields(layer);
    lemma_layer_message(layer, 1);
    lemma_layer_message(layer, 2);
    lemma_layer_message(layer, 3);
    lemma_layer_message(layer, 4);
    lemma_layer_message(layer, 5);
    lemma_layer_message(layer, 15);
    let names = seq![encode_utf8(layer.name)];
    assert(names.drop_last() =~= Seq::<Seq<u8>>::empty());
    assert(read_texts(Seq::<Seq<u8>>::empty()) == Some(Seq::<Seq<char>>::empty()));
    assert(read_texts(names) == Some(Seq::<Seq<char>>::empty().push(layer.name)));
}

proof fn lemma_layers(layers: Seq<LayerModel>)
    requires
        tile_bytes(layers).len() <= u64::MAX,
    ensures
        fields_of(tile_bytes(layers)) == Some(repeated(3, layer_items(layers))),
        read_layers(layer_items(layers)) == Some(layers),
    decreases layers.len(),
{
    let items = layer_items(layers);
    if layers.len() == 0 {
        assert(repeated(3, items) =~= Seq::<Field>::empty());
        assert(layers =~= Seq::<LayerModel>::empty());
    } else {
        let front = layers.drop_last();
        let item = layer_bytes(layers.last());
        lemma_layers(front);
        lemma_layer_reads_back(layers.last());
        lemma_one_more(tile_bytes(front), 3, layer_items(front), item);
        assert(items =~= layer_items(front).push(item));
        assert(items.drop_last() =~= layer_items(front));
        assert(front.push(layers.last()) =~= layers);
    }
}

/// What is encoded is what is read: the bytes of a tile hold its layers, with
/// every feature, key and value, and nothing else.
pub proof fn lemma_tile_reads_back(layers: Seq<LayerModel>)
    requires
        tile_bytes(layers).len() <= u64::MAX,
    ensures
        read_tile(tile_bytes(layers)) == Some(layers),
{
    lemma_layers(layers);
    lemma_with_repeated(3, layer_items(layers), 3);
}

} // verus!
