//! An archive's metadata: one JSON object.
use crate::json::{
    collected, field_models, json_from_text, json_into_fields, json_of, object_text, parse_json,
    parsed_json, write_object, Json,
};
use crate::pmtiles::export::ExportError;
use crate::text::same_text;
use serde_json::Value;
use vstd::prelude::*;

verus! {

/// The names and values of some metadata.
pub open spec fn pairs(metadata: Seq<(String, String)>) -> Seq<(Seq<char>, Seq<char>)> {
    Seq::new(metadata.len(), |i: int| (metadata[i].0@, metadata[i].1@))
}

/// The flat fields: everything but the embedded JSON.
pub open spec fn flat_fields(metadata: Seq<(Seq<char>, Seq<char>)>) -> Seq<(Seq<char>, Json)>
    decreases metadata.len(),
{
    if metadata.len() == 0 {
        Seq::empty()
    } else {
        let front = flat_fields(metadata.drop_last());
        let (name, value) = metadata.last();
        if name == "json"@ {
            front
        } else {
            front.push((name, Json::Text(value)))
        }
    }
}

/// The embedded JSON: the last value under that name.
pub open spec fn embedded(metadata: Seq<(Seq<char>, Seq<char>)>) -> Option<Seq<char>>
    decreases metadata.len(),
{
    if metadata.len() == 0 {
        None
    } else if metadata.last().0 == "json"@ {
        Some(metadata.last().1)
    } else {
        embedded(metadata.drop_last())
    }
}

/// The fields of a value that is an object.
pub open spec fn nested_fields(json: Option<Json>) -> Seq<(Seq<char>, Json)> {
    match json {
        Some(Json::Object(fields)) => fields,
        _ => Seq::empty(),
    }
}

/// What the embedded JSON holds; nothing where it is missing or not JSON.
pub open spec fn embedded_json(metadata: Seq<(Seq<char>, Seq<char>)>) -> Option<Json> {
    match embedded(metadata) {
        None => None,
        Some(text) => parsed_json(text),
    }
}

/// The fields of the metadata object: the flat ones, then those of the embedded
/// JSON.
pub open spec fn metadata_model(
    metadata: Seq<(Seq<char>, Seq<char>)>,
    nested: Option<Json>,
) -> Seq<(Seq<char>, Json)> {
    flat_fields(metadata) + nested_fields(nested)
}

/// Where the embedded JSON and the flat metadata both have a field, the embedded
/// one counts; all other fields of either are kept.
pub proof fn lemma_embedded_fields_prevail(
    flat: Seq<(Seq<char>, Json)>,
    nested: Seq<(Seq<char>, Json)>,
)
    ensures
        collected(flat + nested) == collected(flat).union_prefer_right(collected(nested)),
    decreases nested.len(),
{
    if nested.len() == 0 {
        assert(flat + nested =~= flat);
        assert(collected(flat).union_prefer_right(Map::<Seq<char>, Json>::empty()) =~= collected(
            flat,
        ));
    } else {
        let front = nested.drop_last();
        let (name, value) = nested.last();
        lemma_embedded_fields_prevail(flat, front);
        assert((flat + nested).drop_last() =~= flat + front);
        assert((flat + nested).last() == nested.last());
        assert(collected(flat).union_prefer_right(collected(front)).insert(name, value)
            =~= collected(flat).union_prefer_right(collected(front).insert(name, value)));
    }
}

fn flat_metadata(metadata: &Vec<(String, String)>) -> (fields: Vec<(String, Value)>)
    ensures
        field_models(fields@) == flat_fields(pairs(metadata@)),
{
    let mut fields: Vec<(String, Value)> = Vec::new();
    let ghost all = pairs(metadata@);
    proof {
        assert(all.take(0) =~= Seq::<(Seq<char>, Seq<char>)>::empty());
        assert(field_models(fields@) =~= flat_fields(all.take(0)));
    }
    for i in 0..metadata.len()
        invariant
            all == pairs(metadata@),
            field_models(fields@) == flat_fields(all.take(i as int)),
    {
        let ghost before = fields@;
        proof {
            assert(all.take(i + 1).drop_last() =~= all.take(i as int));
            assert(all.take(i + 1).last() == all[i as int]);
        }
        let name: &String = &metadata[i].0;
        if !same_text(name.as_str(), "json") {
            fields.push((name.clone(), json_from_text(metadata[i].1.clone())));
            assert(field_models(fields@) =~= field_models(before).push(
                (name@, Json::Text(metadata@[i as int].1@)),
            ));
        }
    }
    assert(all.take(all.len() as int) =~= all);
    fields
}

fn embedded_text(metadata: &Vec<(String, String)>) -> (found: Option<&String>)
    ensures
        match found {
            Some(text) => embedded(pairs(metadata@)) == Some(text@),
            None => embedded(pairs(metadata@)) is None,
        },
{
    let ghost all = pairs(metadata@);
    let mut i: usize = metadata.len();
    proof {
        assert(all.take(i as int) =~= all);
    }
    while i > 0
        invariant
            i <= metadata@.len(),
            all == pairs(metadata@),
            embedded(all) == embedded(all.take(i as int)),
        decreases i,
    {
        proof {
            assert(all.take(i as int).drop_last() =~= all.take(i - 1));
            assert(all.take(i as int).last() == all[i - 1]);
        }
        if same_text(metadata[i - 1].0.as_str(), "json") {
            return Some(&metadata[i - 1].1);
        }
        i = i - 1;
    }
    None
}

/// The fields of the metadata object, given what the embedded JSON holds.
pub fn metadata_fields(metadata: &Vec<(String, String)>, nested: Option<Value>) -> (fields: Vec<
    (String, Value),
>)
    ensures
        field_models(fields@) == metadata_model(
            pairs(metadata@),
            match nested {
                Some(value) => Some(json_of(value)),
                None => None,
            },
        ),
{
    let mut fields: Vec<(String, Value)> = flat_metadata(metadata);
    let ghost flat = fields@;
    if let Some(value) = nested {
        if let Some(mut more) = json_into_fields(value) {
            let ghost added = more@;
            fields.append(&mut more);
            assert(field_models(fields@) =~= field_models(flat) + field_models(added));
            return fields;
        }
    }
    assert(field_models(flat) + Seq::<(Seq<char>, Json)>::empty() =~= field_models(flat));
    fields
}

/// The metadata as the JSON object that an archive holds. A tile store keeps
/// most of it as flat strings, and layer definitions in an embedded JSON text;
/// that text's fields are flattened in, which is where clients look for them.
pub fn build_metadata(metadata: &Vec<(String, String)>) -> (res: Result<String, ExportError>)
    ensures
        ({
            let all = pairs(metadata@);
            let text = object_text(collected(metadata_model(all, embedded_json(all))));
            match res {
                Ok(built) => text == Some(built@),
                Err(e) => text is None && e == ExportError::Metadata,
            }
        }),
{
    let nested: Option<Value> = match embedded_text(metadata) {
        None => None,
        Some(text) => match parse_json(text.as_str()) {
            Ok(value) => Some(value),
            Err(_) => None,
        },
    };
    match write_object(metadata_fields(metadata, nested)) {
        Ok(text) => Ok(text),
        Err(_) => Err(ExportError::Metadata),
    }
}

/// Every entry but the embedded JSON becomes a field of its own, as a text and in
/// order.
pub proof fn lemma_entries_become_fields(
    a: Seq<(Seq<char>, Seq<char>)>,
    b: Seq<(Seq<char>, Seq<char>)>,
    entry: (Seq<char>, Seq<char>),
)
    ensures
        flat_fields(a + b) == flat_fields(a) + flat_fields(b),
        entry.0 == "json"@ ==> flat_fields(seq![entry]).len() == 0,
        entry.0 != "json"@ ==> flat_fields(seq![entry]) == seq![(entry.0, Json::Text(entry.1))],
    decreases b.len(),
{
    assert(seq![entry].drop_last() =~= Seq::<(Seq<char>, Seq<char>)>::empty());
    assert(flat_fields(Seq::<(Seq<char>, Seq<char>)>::empty()) =~= Seq::<
        (Seq<char>, Json),
    >::empty());
    if entry.0 != "json"@ {
        assert(flat_fields(seq![entry]) =~= seq![(entry.0, Json::Text(entry.1))]);
    }
    if b.len() == 0 {
        assert(a + b =~= a);
        assert(flat_fields(a) + flat_fields(b) =~= flat_fields(a));
    } else {
        lemma_entries_become_fields(a, b.drop_last(), entry);
        assert((a + b).drop_last() =~= a + b.drop_last());
        assert((a + b).last() == b.last());
        assert(flat_fields(a + b) =~= flat_fields(a) + flat_fields(b));
    }
}

/// The embedded JSON is the last entry of that name; its fields follow the flat ones
/// where it is an object, and nothing follows them otherwise.
pub proof fn lemma_embedded_fields_follow(metadata: Seq<(Seq<char>, Seq<char>)>, json: Option<Json>)
    ensures
        match embedded(metadata) {
            None => forall|i: int| 0 <= i < metadata.len() ==> (#[trigger] metadata[i]).0
                != "json"@,
            Some(text) => exists|i: int|
                0 <= i < metadata.len() && (#[trigger] metadata[i]).0 == "json"@ && metadata[i].1
                    == text && forall|k: int|
                    i < k < metadata.len() ==> (#[trigger] metadata[k]).0 != "json"@,
        },
        match json {
            Some(Json::Object(fields)) => metadata_model(metadata, json) == flat_fields(metadata)
                + fields,
            _ => metadata_model(metadata, json) == flat_fields(metadata),
        },
    decreases metadata.len(),
{
    assert(flat_fields(metadata) + Seq::<(Seq<char>, Json)>::empty() =~= flat_fields(metadata));
    if metadata.len() > 0 {
        let front = metadata.drop_last();
        let n = metadata.len() - 1;
        lemma_embedded_fields_follow(front, json);
        if metadata[n].0 != "json"@ {
            match embedded(front) {
                None => {
                    assert forall|i: int| 0 <= i < metadata.len() implies (#[trigger] metadata[i]).0
                        != "json"@ by {
                        if i < n {
                            assert(front[i] == metadata[i]);
                        }
                    }
                },
                Some(text) => {
                    let i = choose|i: int|
                        0 <= i < front.len() && (#[trigger] front[i]).0 == "json"@ && front[i].1
                            == text && forall|k: int|
                            i < k < front.len() ==> (#[trigger] front[k]).0 != "json"@;
                    assert forall|k: int| i < k < metadata.len() implies (
                    #[trigger] metadata[k]).0 != "json"@ by {
                        if k < n {
                            assert(front[k] == metadata[k]);
                        }
                    }
                    assert(metadata[i].0 == "json"@ && metadata[i].1 == text);
                },
            }
        } else {
            assert(metadata[n].1 == embedded(metadata)->0);
        }
    }
}

/// Metadata are taken one for one.
pub proof fn lemma_metadata_one_for_one(metadata: Seq<(String, String)>)
    ensures
        pairs(metadata).len() == metadata.len(),
        forall|i: int|
            0 <= i < metadata.len() ==> #[trigger] pairs(metadata)[i] == (
                metadata[i].0@,
                metadata[i].1@,
            ),
{
}

} // verus!
