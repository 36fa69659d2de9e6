//! Incremental updates: which tiles a batch of notifications makes stale, and
//! what is reported about them.
use crate::config::{AppConfig, DerivedGeomType, LayerConfig, SourceConfig};
use crate::config::{boundary_name, labels_name, source_owns};
use crate::events::{sorted_zooms, EventModel, TileEvent};
use crate::json::{
    bits_of, field, int_of, json_bits, json_field, json_int, json_of, json_str, number_bits,
    number_int, parse_json, parsed_json, string_of, Json,
};
use crate::mvt::layer::FeatureData;
use crate::postgis::Bounds;
use crate::text::{
    chars_of, decimal, digit, holds_text, joined, same_text, signed_decimal, text_of, texts,
};
use crate::tiles::TileCoord;
use serde_json::Value;
use std::collections::HashSet;
use vstd::prelude::*;

verus! {

/// A change of one feature.
#[derive(Debug)]
pub struct UpdateEvent {
    pub layer_name: String,
    pub feature_id: i64,
    /// Where the feature was before the change.
    pub old_bounds: Option<Bounds>,
}

/// Why a notification could not be read.
#[derive(Debug, Clone, Copy, PartialEq, Eq, Structural)]
pub enum NotificationError {
    MissingLayer,
    MissingId,
    /// Neither JSON nor `layer:id`.
    Format,
    InvalidId,
}

/// What a change says.
pub struct UpdateModel {
    pub layer: Seq<char>,
    pub id: i64,
    pub old_bounds: Option<Bounds>,
}

impl UpdateEvent {
    pub open spec fn model(self) -> UpdateModel {
        UpdateModel {
            layer: self.layer_name@,
            id: self.feature_id,
            old_bounds: self.old_bounds,
        }
    }
}

/// A coordinate of old bounds; zero where it is missing or no number.
pub open spec fn bound(json: Json, name: Seq<char>) -> u64 {
    match field(json, name) {
        Some(value) => match bits_of(value) {
            Some(bits) => bits,
            None => 0,
        },
        None => 0,
    }
}

/// Old bounds.
pub open spec fn bounds_of(json: Json) -> Bounds {
    Bounds {
        min_lon: bound(json, "min_lon"@),
        min_lat: bound(json, "min_lat"@),
        max_lon: bound(json, "max_lon"@),
        max_lat: bound(json, "max_lat"@),
    }
}

/// The string in a field.
pub open spec fn string_field(json: Json, name: Seq<char>) -> Option<Seq<char>> {
    match field(json, name) {
        Some(value) => string_of(value),
        None => None,
    }
}

/// The integer in a field.
pub open spec fn int_field(json: Json, name: Seq<char>) -> Option<i64> {
    match field(json, name) {
        Some(value) => int_of(value),
        None => None,
    }
}

/// The change that a JSON notification says.
pub open spec fn json_update(json: Json) -> Result<UpdateModel, NotificationError> {
    match string_field(json, "layer"@) {
        None => Err(NotificationError::MissingLayer),
        Some(layer) => match int_field(json, "id"@) {
            None => Err(NotificationError::MissingId),
            Some(id) => Ok(
                UpdateModel {
                    layer,
                    id,
                    old_bounds: match field(json, "old_bounds"@) {
                        Some(bounds) => Some(bounds_of(bounds)),
                        None => None,
                    },
                },
            ),
        },
    }
}

/// A decimal digit.
pub open spec fn is_digit(c: char) -> bool {
    '0' <= c && c <= '9'
}

/// A text of nothing but digits.
pub open spec fn all_digits(text: Seq<char>) -> bool {
    forall|i: int| 0 <= i < text.len() ==> is_digit(#[trigger] text[i])
}

/// The number that digits spell.
pub open spec fn digits_value(digits: Seq<char>) -> int
    decreases digits.len(),
{
    if digits.len() == 0 {
        0
    } else {
        10 * digits_value(digits.drop_last()) + (digits.last() as int - '0' as int)
    }
}

/// The integer that a text spells: an optional sign and at least one digit,
/// within 64 bits.
pub open spec fn int_of_text(text: Seq<char>) -> Option<i64> {
    let signed = text.len() > 0 && (text[0] == '-' || text[0] == '+');
    let digits = if signed {
        text.skip(1)
    } else {
        text
    };
    let value = if signed && text[0] == '-' {
        -digits_value(digits)
    } else {
        digits_value(digits)
    };
    if digits.len() == 0 || !all_digits(digits) {
        None
    } else if i64::MIN <= value <= i64::MAX {
        Some(value as i64)
    } else {
        None
    }
}

/// The place of the first colon, or the length of a text without one.
pub open spec fn colon_place(text: Seq<char>) -> int
    decreases text.len(),
{
    if text.len() == 0 || text[0] == ':' {
        0
    } else {
        1 + colon_place(text.skip(1))
    }
}

/// The change that a notification of the form `layer:id` says.
pub open spec fn text_update(text: Seq<char>) -> Result<UpdateModel, NotificationError> {
    let i = colon_place(text);
    if i >= text.len() {
        Err(NotificationError::Format)
    } else {
        match int_of_text(text.skip(i + 1)) {
            None => Err(NotificationError::InvalidId),
            Some(id) => Ok(UpdateModel { layer: text.take(i), id, old_bounds: None }),
        }
    }
}

/// The change that a notification says: JSON, or else `layer:id`.
pub open spec fn notified(text: Seq<char>) -> Result<UpdateModel, NotificationError> {
    match parsed_json(text) {
        Some(json) => json_update(json),
        None => text_update(text),
    }
}

/// A result has the outcome of a model.
pub open spec fn update_result(
    res: Result<UpdateEvent, NotificationError>,
    model: Result<UpdateModel, NotificationError>,
) -> bool {
    match res {
        Ok(event) => model == Ok::<UpdateModel, NotificationError>(event.model()),
        Err(e) => model == Err::<UpdateModel, NotificationError>(e),
    }
}

fn read_bound(value: &Value, name: &str) -> (bits: u64)
    ensures
        bits == bound(json_of(*value), name@),
{
    match json_field(value, name) {
        Some(number) => match json_bits(number) {
            Some(bits) => bits,
            None => 0,
        },
        None => 0,
    }
}

/// Read a notification that is JSON.
pub fn update_from_json(json: &Value) -> (res: Result<UpdateEvent, NotificationError>)
    ensures
        update_result(res, json_update(json_of(*json))),
{
    let layer_name: String = match json_field(json, "layer") {
        None => {
            return Err(NotificationError::MissingLayer);
        },
        Some(value) => match json_str(value) {
            None => {
                return Err(NotificationError::MissingLayer);
            },
            Some(name) => name.to_owned(),
        },
    };
    let feature_id: i64 = match json_field(json, "id") {
        None => {
            return Err(NotificationError::MissingId);
        },
        Some(value) => match json_int(value) {
            None => {
                return Err(NotificationError::MissingId);
            },
            Some(id) => id,
        },
    };
    let old_bounds: Option<Bounds> = match json_field(json, "old_bounds") {
        None => None,
        Some(value) => Some(
            Bounds {
                min_lon: read_bound(value, "min_lon"),
                min_lat: read_bound(value, "min_lat"),
                max_lon: read_bound(value, "max_lon"),
                max_lat: read_bound(value, "max_lat"),
            },
        ),
    };
    Ok(UpdateEvent { layer_name, feature_id, old_bounds })
}

proof fn lemma_colon_behind(layer: Seq<char>, rest: Seq<char>)
    requires
        !layer.contains(':'),
        rest.len() > 0,
        rest[0] == ':',
    ensures
        colon_place(layer + rest) == layer.len(),
    decreases layer.len(),
{
    let text = layer + rest;
    if layer.len() == 0 {
        assert(text =~= rest);
    } else {
        assert(text[0] == layer[0] && layer.contains(layer[0]));
        assert forall|i: int| 0 <= i < layer.skip(1).len() implies layer.skip(1)[i] != ':' by {
            assert(layer.contains(layer[i + 1]));
        }
        assert(text.skip(1) =~= layer.skip(1) + rest);
        lemma_colon_behind(layer.skip(1), rest);
    }
}

proof fn lemma_decimal_spells(n: nat)
    ensures
        decimal(n).len() > 0,
        all_digits(decimal(n)),
        digits_value(decimal(n)) == n,
    decreases n,
{
    if n < 10 {
        assert(decimal(n).drop_last() =~= Seq::<char>::empty());
        assert(digits_value(Seq::<char>::empty()) == 0);
    } else {
        lemma_decimal_spells(n / 10);
        let front = decimal(n / 10);
        let last = digit(n % 10);
        assert(front.push(last).drop_last() =~= front);
        assert forall|i: int| 0 <= i < decimal(n).len() implies is_digit(
            #[trigger] decimal(n)[i],
        ) by {
            if i < front.len() {
                assert(decimal(n)[i] == front[i]);
            }
        }
    }
}

/// A notification of the form `layer:id` says the layer and the number that it
/// was made from.
pub proof fn lemma_simple_notification(layer: Seq<char>, id: i64)
    requires
        !layer.contains(':'),
    ensures
        text_update(layer + ":"@ + signed_decimal(id as int)) == Ok::<
            UpdateModel,
            NotificationError,
        >(UpdateModel { layer, id, old_bounds: None }),
{
    reveal_strlit(":");
    reveal_strlit("-");
    let number = signed_decimal(id as int);
    let rest = ":"@ + number;
    let text = layer + ":"@ + number;
    assert(text =~= layer + rest);
    lemma_colon_behind(layer, rest);
    assert(text.take(layer.len() as int) =~= layer);
    assert(text.skip(layer.len() as int + 1) =~= number);
    let size = if id < 0 {
        (-id) as nat
    } else {
        id as nat
    };
    lemma_decimal_spells(size);
    if id < 0 {
        assert(number.skip(1) =~= decimal(size));
    } else {
        assert(is_digit(number[0]));
    }
}

proof fn lemma_digits_grow(digits: Seq<char>, i: int)
    requires
        0 <= i <= digits.len(),
        all_digits(digits),
    ensures
        0 <= digits_value(digits.take(i)) <= digits_value(digits),
    decreases digits.len(),
{
    if digits.len() == 0 {
        assert(digits.take(i) =~= digits);
    } else {
        let front = digits.drop_last();
        assert forall|k: int| 0 <= k < front.len() implies is_digit(#[trigger] front[k]) by {
            assert(front[k] == digits[k]);
        }
        assert(is_digit(digits[digits.len() - 1]));
        if i == digits.len() {
            assert(digits.take(i) =~= digits);
            lemma_digits_grow(front, 0);
            assert(front.take(0) =~= Seq::<char>::empty());
        } else {
            lemma_digits_grow(front, i);
            assert(front.take(i) =~= digits.take(i));
        }
    }
}

/// Read an integer: an optional sign and digits.
#[verifier::loop_isolation(false)]
fn parse_int(chars: &[char], from: usize) -> (number: Option<i64>)
    requires
        from <= chars@.len(),
    ensures
        number == int_of_text(chars@.skip(from as int)),
{
    let ghost text = chars@.skip(from as int);
    let signed: bool = from < chars.len() && (chars[from] == '-' || chars[from] == '+');
    let negative: bool = signed && chars[from] == '-';
    let start: usize = if signed { from + 1 } else { from };
    let ghost digits = if signed { text.skip(1) } else { text };
    proof {
        assert(digits =~= chars@.skip(start as int));
        assert(digits.take(0) =~= Seq::<char>::empty());
    }
    if start >= chars.len() {
        return None;
    }
    let mut value: i128 = 0;
    for i in start..chars.len()
        invariant
            start < chars@.len(),
            digits == chars@.skip(start as int),
            value == digits_value(digits.take(i - start)),
            0 <= value <= 0x8000_0000_0000_0000,
            forall|k: int| 0 <= k < i - start ==> is_digit(#[trigger] digits[k]),
    {
        let c: char = chars[i];
        assert(digits[i - start] == c);
        if c < '0' || c > '9' {
            assert(!is_digit(digits[i - start]));
            return None;
        }
        let d: i128 = c as u32 as i128 - 48;
        proof {
            assert(digits.take(i - start + 1).drop_last() =~= digits.take(i - start));
            assert(digits.take(i - start + 1).last() == c);
        }
        value = 10 * value + d;
        if value > 0x8000_0000_0000_0000 {
            proof {
                if all_digits(digits) {
                    lemma_digits_grow(digits, i - start + 1);
                }
            }
            return None;
        }
    }
    proof {
        assert(digits.take(chars@.len() - start) =~= digits);
    }
    if negative {
        Some((-value) as i64)
    } else if value < 0x8000_0000_0000_0000 {
        Some(value as i64)
    } else {
        None
    }
}

proof fn lemma_colon_place(text: Seq<char>, i: int)
    requires
        0 <= i <= text.len(),
        forall|k: int| 0 <= k < i ==> (#[trigger] text[k]) != ':',
        i < text.len() ==> text[i] == ':',
    ensures
        colon_place(text) == i,
    decreases i,
{
    if i > 0 {
        let rest = text.skip(1);
        assert(text[0] != ':');
        assert forall|k: int| 0 <= k < i - 1 implies (#[trigger] rest[k]) != ':' by {
            assert(rest[k] == text[k + 1]);
        }
        lemma_colon_place(rest, i - 1);
    }
}

/// Read a notification of the form `layer:id`.
pub fn update_from_text(text: &str) -> (res: Result<UpdateEvent, NotificationError>)
    ensures
        update_result(res, text_update(text@)),
{
    let chars: Vec<char> = chars_of(text);
    let mut i: usize = 0;
    while i < chars.len() && chars[i] != ':'
        invariant
            i <= chars@.len(),
            forall|k: int| 0 <= k < i ==> (#[trigger] chars@[k]) != ':',
        decreases chars@.len() - i,
    {
        i = i + 1;
    }
    proof {
        lemma_colon_place(chars@, i as int);
    }
    if i >= chars.len() {
        return Err(NotificationError::Format);
    }
    match parse_int(chars.as_slice(), i + 1) {
        None => Err(NotificationError::InvalidId),
        Some(feature_id) => {
            let layer_name: String = text_of(chars.as_slice(), 0, i);
            assert(layer_name@ =~= text@.take(i as int));
            Ok(UpdateEvent { layer_name, feature_id, old_bounds: None })
        },
    }
}

/// Read a notification: JSON with `layer`, `id` and perhaps `old_bounds`, or
/// `layer:id`.
pub fn parse_notification(payload: &str) -> (res: Result<UpdateEvent, NotificationError>)
    ensures
        update_result(res, notified(payload@)),
{
    match parse_json(payload) {
        Ok(json) => update_from_json(&json),
        Err(_) => update_from_text(payload),
    }
}

/// The changes that some notifications say; those that say none are left out.
pub open spec fn notified_all(payloads: Seq<Seq<char>>) -> Seq<UpdateModel>
    decreases payloads.len(),
{
    if payloads.len() == 0 {
        Seq::empty()
    } else {
        let front = notified_all(payloads.drop_last());
        match notified(payloads.last()) {
            Ok(update) => front.push(update),
            Err(_) => front,
        }
    }
}

/// The notifications that say no change.
pub open spec fn rejected_all(payloads: Seq<Seq<char>>) -> Seq<(nat, NotificationError)>
    decreases payloads.len(),
{
    if payloads.len() == 0 {
        Seq::empty()
    } else {
        let front = rejected_all(payloads.drop_last());
        match notified(payloads.last()) {
            Ok(_) => front,
            Err(e) => front.push(((payloads.len() - 1) as nat, e)),
        }
    }
}

/// What some changes say.
pub open spec fn update_models(events: Seq<UpdateEvent>) -> Seq<UpdateModel> {
    Seq::new(events.len(), |i: int| events[i].model())
}

/// Read a batch of notifications: the changes, and the ones that could not be
/// read, by their place in the batch.
pub fn parse_batch(payloads: &Vec<String>) -> (batch: (
    Vec<UpdateEvent>,
    Vec<(usize, NotificationError)>,
))
    ensures
        update_models(batch.0@) == notified_all(texts(payloads@)),
        batch.1@.len() == rejected_all(texts(payloads@)).len(),
        forall|i: int|
            0 <= i < batch.1@.len() ==> (#[trigger] batch.1@[i]).0 == rejected_all(
                texts(payloads@),
            )[i].0 && batch.1@[i].1 == rejected_all(texts(payloads@))[i].1,
{
    let ghost all = texts(payloads@);
    let mut events: Vec<UpdateEvent> = Vec::new();
    let mut rejected: Vec<(usize, NotificationError)> = Vec::new();
    assert(all.take(0) =~= Seq::<Seq<char>>::empty());
    assert(update_models(events@) =~= Seq::<UpdateModel>::empty());
    for i in 0..payloads.len()
        invariant
            all == texts(payloads@),
            update_models(events@) == notified_all(all.take(i as int)),
            rejected@.len() == rejected_all(all.take(i as int)).len(),
            forall|k: int|
                0 <= k < rejected@.len() ==> (#[trigger] rejected@[k]).0 == rejected_all(
                    all.take(i as int),
                )[k].0 && rejected@[k].1 == rejected_all(all.take(i as int))[k].1,
    {
        let ghost held = events@;
        proof {
            assert(all.take(i + 1).last() == all[i as int]);
            assert(all.take(i + 1).drop_last() =~= all.take(i as int));
        }
        match parse_notification(payloads[i].as_str()) {
            Ok(event) => {
                let ghost model = event.model();
                events.push(event);
                assert(update_models(events@) =~= update_models(held).push(model));
            },
            Err(e) => {
                rejected.push((i, e));
            },
        }
    }
    assert(all.take(all.len() as int) =~= all);
    (events, rejected)
}

/// The first source that owns a layer, or -1.
pub open spec fn owner(sources: Seq<SourceConfig>, layer: Seq<char>) -> int
    decreases sources.len(),
{
    if sources.len() == 0 {
        -1
    } else if owner(sources.drop_last(), layer) >= 0 {
        owner(sources.drop_last(), layer)
    } else if source_owns(sources.last(), layer) {
        sources.len() - 1
    } else {
        -1
    }
}

/// The first source with a name, or -1.
pub open spec fn named(sources: Seq<SourceConfig>, name: Seq<char>) -> int
    decreases sources.len(),
{
    if sources.len() == 0 {
        -1
    } else if named(sources.drop_last(), name) >= 0 {
        named(sources.drop_last(), name)
    } else if sources.last().name@ == name {
        sources.len() - 1
    } else {
        -1
    }
}

/// The source that a change of a layer goes to: the first of the name of the
/// first that owns the layer, or -1 where none does.
pub open spec fn route(sources: Seq<SourceConfig>, layer: Seq<char>) -> int {
    let i = owner(sources, layer);
    if i < 0 {
        -1
    } else {
        named(sources, sources[i].name@)
    }
}

proof fn lemma_owner(sources: Seq<SourceConfig>, layer: Seq<char>, i: int)
    requires
        0 <= i < sources.len(),
        source_owns(sources[i], layer),
        forall|k: int| 0 <= k < i ==> !source_owns(#[trigger] sources[k], layer),
    ensures
        owner(sources, layer) == i,
    decreases sources.len(),
{
    let front = sources.drop_last();
    if i < front.len() {
        assert(front[i] == sources[i]);
        assert forall|k: int| 0 <= k < i implies !source_owns(#[trigger] front[k], layer) by {
            assert(front[k] == sources[k]);
        }
        lemma_owner(front, layer, i);
    } else {
        assert forall|k: int| 0 <= k < front.len() implies !source_owns(
            #[trigger] front[k],
            layer,
        ) by {
            assert(front[k] == sources[k]);
        }
        lemma_no_owner(front, layer);
    }
}

proof fn lemma_no_owner(sources: Seq<SourceConfig>, layer: Seq<char>)
    requires
        forall|k: int| 0 <= k < sources.len() ==> !source_owns(#[trigger] sources[k], layer),
    ensures
        owner(sources, layer) == -1,
    decreases sources.len(),
{
    if sources.len() > 0 {
        let front = sources.drop_last();
        assert forall|k: int| 0 <= k < front.len() implies !source_owns(
            #[trigger] front[k],
            layer,
        ) by {
            assert(front[k] == sources[k]);
        }
        lemma_no_owner(front, layer);
        assert(!source_owns(sources[sources.len() - 1], layer));
    }
}

proof fn lemma_named_bound(sources: Seq<SourceConfig>, name: Seq<char>, i: int)
    requires
        0 <= i < sources.len(),
        sources[i].name@ == name,
    ensures
        0 <= named(sources, name) <= i,
        sources[named(sources, name)].name@ == name,
    decreases sources.len(),
{
    let front = sources.drop_last();
    if i < front.len() {
        assert(front[i] == sources[i]);
        lemma_named_bound(front, name, i);
    } else if named(front, name) >= 0 {
        lemma_named_is_named(front, name);
    }
}

proof fn lemma_named_is_named(sources: Seq<SourceConfig>, name: Seq<char>)
    requires
        named(sources, name) >= 0,
    ensures
        named(sources, name) < sources.len(),
        sources[named(sources, name)].name@ == name,
    decreases sources.len(),
{
    let front = sources.drop_last();
    if named(front, name) >= 0 {
        lemma_named_is_named(front, name);
    }
}

fn find_named(sources: &Vec<SourceConfig>, name: &str, Ghost(owner): Ghost<int>) -> (found: usize)
    requires
        0 <= owner < sources@.len(),
        sources@[owner].name@ == name@,
    ensures
        found == named(sources@, name@),
        found < sources@.len(),
{
    proof {
        lemma_named_bound(sources@, name@, owner);
        assert(sources@.take(0) =~= Seq::<SourceConfig>::empty());
    }
    let mut i: usize = 0;
    while i < sources.len()
        invariant
            i <= sources@.len(),
            0 <= owner < sources@.len(),
            sources@[owner].name@ == name@,
            named(sources@.take(i as int), name@) == -1,
        decreases sources@.len() - i,
    {
        proof {
            assert(sources@.take(i + 1).last() == sources@[i as int]);
            assert(sources@.take(i + 1).drop_last() =~= sources@.take(i as int));
        }
        if same_text(sources[i].name.as_str(), name) {
            proof {
                lemma_named_stays(sources@, name@, i as int + 1);
            }
            return i;
        }
        i = i + 1;
    }
    proof {
        assert(sources@.take(sources@.len() as int) =~= sources@);
        lemma_named_bound(sources@, name@, owner);
    }
    0
}

proof fn lemma_named_stays(sources: Seq<SourceConfig>, name: Seq<char>, i: int)
    requires
        0 <= i <= sources.len(),
        named(sources.take(i), name) >= 0,
    ensures
        named(sources, name) == named(sources.take(i), name),
    decreases sources.len() - i,
{
    if i < sources.len() {
        assert(sources.take(i + 1).drop_last() =~= sources.take(i));
        lemma_named_stays(sources, name, i + 1);
    } else {
        assert(sources.take(i) =~= sources);
    }
}

/// The changes of one source, by their places in the batch.
#[derive(Debug)]
pub struct SourceBatch {
    pub source: usize,
    pub events: Vec<usize>,
}

/// Places in ascending order, none twice.
pub open spec fn ascending_places(places: Seq<usize>) -> bool {
    forall|i: int, j: int| 0 <= i < j < places.len() ==> #[trigger] places[i] < #[trigger] places[j]
}

/// Where each change of a batch goes.
pub open spec fn routes(sources: Seq<SourceConfig>, events: Seq<UpdateEvent>) -> Seq<int> {
    Seq::new(events.len(), |i: int| route(sources, events[i].layer_name@))
}

/// The first `n` changes are grouped by where they go: one batch for each
/// source, in the order of its first change, with all its changes in order.
pub open spec fn grouped(batches: Seq<SourceBatch>, unknown: Seq<usize>, routes: Seq<int>, n: int) -> bool {
    &&& forall|b: int|
        0 <= b < batches.len() ==> {
            &&& (#[trigger] batches[b]).events@.len() > 0
            &&& ascending_places(batches[b].events@)
            &&& forall|i: int|
                0 <= i < batches[b].events@.len() ==> (#[trigger] batches[b].events@[i]) < n
                    && routes[batches[b].events@[i] as int] == batches[b].source
        }
    &&& forall|a: int, b: int|
        0 <= a < b < batches.len() ==> (#[trigger] batches[a]).source != (
        #[trigger] batches[b]).source && batches[a].events@[0] < batches[b].events@[0]
    &&& forall|i: int|
        0 <= i < n && #[trigger] routes[i] >= 0 ==> exists|b: int|
            0 <= b < batches.len() && (#[trigger] batches[b]).source == routes[i]
                && batches[b].events@.contains(i as usize)
    &&& ascending_places(unknown)
    &&& forall|i: int| 0 <= i < unknown.len() ==> (#[trigger] unknown[i]) < n && routes[unknown[i] as int] < 0
    &&& forall|i: int| 0 <= i < n && #[trigger] routes[i] < 0 ==> unknown.contains(i as usize)
}

fn find_batch(batches: &Vec<SourceBatch>, source: usize) -> (found: Option<usize>)
    ensures
        match found {
            Some(b) => b < batches@.len() && batches@[b as int].source == source,
            None => forall|b: int| 0 <= b < batches@.len() ==> (#[trigger] batches@[b]).source != source,
        },
{
    for b in 0..batches.len()
        invariant
            forall|k: int| 0 <= k < b ==> (#[trigger] batches@[k]).source != source,
    {
        if batches[b].source == source {
            return Some(b);
        }
    }
    None
}

/// Where a change of a layer goes.
fn route_of(config: &AppConfig, layer: &str) -> (found: Option<usize>)
    ensures
        match found {
            Some(i) => route(config.sources@, layer@) == i && i < config.sources@.len(),
            None => route(config.sources@, layer@) == -1,
        },
{
    match config.find_source_for_layer(layer) {
        None => {
            proof {
                lemma_no_owner(config.sources@, layer@);
            }
            None
        },
        Some(source) => {
            let ghost i = choose|i: int|
                0 <= i < config.sources@.len() && (#[trigger] config.sources@[i]) == *source
                    && source_owns(config.sources@[i], layer@) && forall|k: int|
                    0 <= k < i ==> !source_owns(#[trigger] config.sources@[k], layer@);
            proof {
                lemma_owner(config.sources@, layer@, i);
            }
            Some(find_named(&config.sources, source.name.as_str(), Ghost(i)))
        },
    }
}

/// Group changes by the source that they go to. The second list holds the
/// changes of layers that no source has.
pub fn group_by_source(config: &AppConfig, events: &Vec<UpdateEvent>) -> (groups: (
    Vec<SourceBatch>,
    Vec<usize>,
))
    ensures
        grouped(
            groups.0@,
            groups.1@,
            routes(config.sources@, events@),
            events@.len() as int,
        ),
{
    let ghost all = routes(config.sources@, events@);
    let mut batches: Vec<SourceBatch> = Vec::new();
    let mut unknown: Vec<usize> = Vec::new();
    for i in 0..events.len()
        invariant
            all == routes(config.sources@, events@),
            grouped(batches@, unknown@, all, i as int),
    {
        assert(events.len() <= usize::MAX);
        let ghost held = batches@;
        let ghost strays = unknown@;
        match route_of(config, events[i].layer_name.as_str()) {
            None => {
                unknown.push(i);
                proof {
                    lemma_stray_added(held, strays, all, i);
                }
            },
            Some(source) => {
                match find_batch(&batches, source) {
                    Some(b) => {
                        let mut batch: SourceBatch = batches.remove(b);
                        let ghost old_events = batch.events@;
                        batch.events.push(i);
                        let ghost grown = batch;
                        batches.insert(b, batch);
                        proof {
                            assert(batches@ =~= held.update(b as int, grown));
                            lemma_event_added(held, strays, all, i, b as int, grown);
                        }
                    },
                    None => {
                        let mut places: Vec<usize> = Vec::new();
                        places.push(i);
                        let batch: SourceBatch = SourceBatch { source, events: places };
                        let ghost added = batch;
                        batches.push(batch);
                        proof {
                            lemma_batch_added(held, strays, all, i, added);
                        }
                    },
                }
            },
        }
    }
    (batches, unknown)
}

proof fn lemma_stray_added(
    batches: Seq<SourceBatch>,
    unknown: Seq<usize>,
    routes: Seq<int>,
    i: usize,
)
    requires
        i < routes.len(),
        grouped(batches, unknown, routes, i as int),
        routes[i as int] < 0,
    ensures
        grouped(batches, unknown.push(i), routes, i + 1),
{
    let more = unknown.push(i);
    assert forall|k: int| 0 <= k < i + 1 && #[trigger] routes[k] < 0 implies more.contains(
        k as usize,
    ) by {
        if k < i {
            let j = choose|j: int| 0 <= j < unknown.len() && unknown[j] == k as usize;
            assert(more[j] == k as usize);
        } else {
            assert(more[unknown.len() as int] == i);
        }
    }
}

proof fn lemma_event_added(
    batches: Seq<SourceBatch>,
    unknown: Seq<usize>,
    routes: Seq<int>,
    i: usize,
    b: int,
    grown: SourceBatch,
)
    requires
        i < routes.len(),
        grouped(batches, unknown, routes, i as int),
        0 <= b < batches.len(),
        routes[i as int] == batches[b].source,
        grown.source == batches[b].source,
        grown.events@ == batches[b].events@.push(i),
    ensures
        grouped(batches.update(b, grown), unknown, routes, i + 1),
{
    let after = batches.update(b, grown);
    assert forall|c: int| 0 <= c < after.len() implies {
        &&& (#[trigger] after[c]).events@.len() > 0
        &&& ascending_places(after[c].events@)
        &&& forall|k: int|
            0 <= k < after[c].events@.len() ==> (#[trigger] after[c].events@[k]) < i + 1
                && routes[after[c].events@[k] as int] == after[c].source
    } by {
        assert(batches[c].events@.len() > 0);
    }
    assert forall|k: int| 0 <= k < i + 1 && #[trigger] routes[k] >= 0 implies exists|c: int|
        0 <= c < after.len() && (#[trigger] after[c]).source == routes[k]
            && after[c].events@.contains(k as usize) by {
        if k < i {
            let c = choose|c: int|
                0 <= c < batches.len() && (#[trigger] batches[c]).source == routes[k]
                    && batches[c].events@.contains(k as usize);
            let j = choose|j: int|
                0 <= j < batches[c].events@.len() && batches[c].events@[j] == k as usize;
            assert(after[c].events@[j] == k as usize);
            assert(after[c].source == routes[k]);
        } else {
            assert(grown.events@[batches[b].events@.len() as int] == i);
            assert(after[b].source == routes[k]);
        }
    }
    assert forall|a: int, c: int| 0 <= a < c < after.len() implies (#[trigger] after[a]).source != (
    #[trigger] after[c]).source && after[a].events@[0] < after[c].events@[0] by {
        assert(batches[a].source != batches[c].source);
        assert(after[a].events@[0] == batches[a].events@[0]);
        assert(after[c].events@[0] == batches[c].events@[0]);
    }
}

proof fn lemma_batch_added(
    batches: Seq<SourceBatch>,
    unknown: Seq<usize>,
    routes: Seq<int>,
    i: usize,
    added: SourceBatch,
)
    requires
        i < routes.len(),
        grouped(batches, unknown, routes, i as int),
        routes[i as int] == added.source,
        added.events@ == seq![i],
        forall|b: int| 0 <= b < batches.len() ==> (#[trigger] batches[b]).source != added.source,
    ensures
        grouped(batches.push(added), unknown, routes, i + 1),
{
    let after = batches.push(added);
    assert forall|k: int| 0 <= k < i + 1 && #[trigger] routes[k] >= 0 implies exists|c: int|
        0 <= c < after.len() && (#[trigger] after[c]).source == routes[k]
            && after[c].events@.contains(k as usize) by {
        if k < i {
            let c = choose|c: int|
                0 <= c < batches.len() && (#[trigger] batches[c]).source == routes[k]
                    && batches[c].events@.contains(k as usize);
            assert(after[c] == batches[c]);
        } else {
            assert(after[batches.len() as int] == added);
            assert(added.events@[0] == i);
        }
    }
    assert forall|a: int, c: int| 0 <= a < c < after.len() implies (#[trigger] after[a]).source != (
    #[trigger] after[c]).source && after[a].events@[0] < after[c].events@[0] by {
        assert(after[a] == batches[a]);
        if c < batches.len() {
            assert(after[c] == batches[c]);
        } else {
            assert(batches[a].events@[0] < i);
        }
    }
}

/// One query for the features of a tile: a layer, or a companion derived from
/// it, and the name that its features go under.
#[derive(Debug)]
pub struct LayerRequest {
    pub layer: usize,
    pub derived: Option<DerivedGeomType>,
    pub name: String,
}

/// What a query asks.
pub struct RequestModel {
    pub layer: int,
    pub derived: Option<DerivedGeomType>,
    pub name: Seq<char>,
}

impl LayerRequest {
    pub open spec fn model(self) -> RequestModel {
        RequestModel { layer: self.layer as int, derived: self.derived, name: self.name@ }
    }
}

/// What some queries ask.
pub open spec fn request_models(requests: Seq<LayerRequest>) -> Seq<RequestModel> {
    Seq::new(requests.len(), |i: int| requests[i].model())
}

/// The queries for one layer: its own, and one for each companion.
pub open spec fn requests_of(layer: LayerConfig, i: int) -> Seq<RequestModel> {
    let own = seq![RequestModel { layer: i, derived: None, name: layer.name@ }];
    let labels = if layer.generate_label_points {
        seq![
            RequestModel {
                layer: i,
                derived: Some(DerivedGeomType::LabelPoint),
                name: labels_name(layer.name@),
            },
        ]
    } else {
        Seq::empty()
    };
    let boundary = if layer.generate_boundary_lines {
        seq![
            RequestModel {
                layer: i,
                derived: Some(DerivedGeomType::BoundaryLine),
                name: boundary_name(layer.name@),
            },
        ]
    } else {
        Seq::empty()
    };
    own + labels + boundary
}

/// The queries for some layers.
pub open spec fn all_requests(layers: Seq<LayerConfig>) -> Seq<RequestModel>
    decreases layers.len(),
{
    if layers.len() == 0 {
        Seq::empty()
    } else {
        all_requests(layers.drop_last()) + requests_of(layers.last(), layers.len() - 1)
    }
}

/// The queries that a tile of a source takes.
pub fn layer_requests(source: &SourceConfig) -> (requests: Vec<LayerRequest>)
    ensures
        request_models(requests@) == all_requests(source.layers@),
        forall|i: int|
            0 <= i < requests@.len() ==> (#[trigger] requests@[i]).layer < source.layers@.len(),
{
    let mut requests: Vec<LayerRequest> = Vec::new();
    assert(source.layers@.take(0) =~= Seq::<LayerConfig>::empty());
    assert(request_models(requests@) =~= all_requests(source.layers@.take(0)));
    for i in 0..source.layers.len()
        invariant
            request_models(requests@) == all_requests(source.layers@.take(i as int)),
            forall|k: int|
                0 <= k < requests@.len() ==> (#[trigger] requests@[k]).layer < source.layers@.len(),
    {
        let ghost held = request_models(requests@);
        proof {
            assert(source.layers@.take(i + 1).last() == source.layers@[i as int]);
            assert(source.layers@.take(i + 1).drop_last() =~= source.layers@.take(i as int));
        }
        let layer: &LayerConfig = &source.layers[i];
        requests.push(LayerRequest { layer: i, derived: None, name: layer.name.clone() });
        if layer.generate_label_points {
            requests.push(
                LayerRequest {
                    layer: i,
                    derived: Some(DerivedGeomType::LabelPoint),
                    name: joined(layer.name.as_str(), "_labels"),
                },
            );
        }
        if layer.generate_boundary_lines {
            requests.push(
                LayerRequest {
                    layer: i,
                    derived: Some(DerivedGeomType::BoundaryLine),
                    name: joined(layer.name.as_str(), "_boundary"),
                },
            );
        }
        assert(request_models(requests@) =~= held + requests_of(*layer, i as int));
    }
    assert(source.layers@.take(source.layers@.len() as int) =~= source.layers@);
    requests
}

/// The place of a name among some layers, or their number.
pub open spec fn layer_place(layers: Seq<(String, Vec<FeatureData>)>, name: Seq<char>) -> int
    decreases layers.len(),
{
    if layers.len() == 0 {
        0
    } else if layers[0].0@ == name {
        0
    } else {
        1 + layer_place(layers.skip(1), name)
    }
}

/// Put the answer to a query among the layers of a tile. No features leave the
/// layers as they are; a layer of the same name is replaced.
pub fn add_layer_features(
    layers: &mut Vec<(String, Vec<FeatureData>)>,
    name: &str,
    features: Vec<FeatureData>,
)
    ensures
        features@.len() == 0 ==> final(layers)@ == old(layers)@,
        features@.len() > 0 ==> ({
            let place = layer_place(old(layers)@, name@);
            &&& 0 <= place <= old(layers)@.len()
            &&& final(layers)@.len() == (if place < old(layers)@.len() {
                old(layers)@.len()
            } else {
                old(layers)@.len() + 1
            })
            &&& final(layers)@[place].0@ == name@
            &&& final(layers)@[place].1 == features
            &&& forall|i: int|
                0 <= i < old(layers)@.len() && i != place ==> #[trigger] final(layers)@[i]
                    == old(layers)@[i]
        }),
{
    if features.len() == 0 {
        return;
    }
    let ghost before = layers@;
    let mut i: usize = 0;
    assert(before.skip(0) =~= before);
    while i < layers.len() && !same_text(layers[i].0.as_str(), name)
        invariant
            i <= layers@.len(),
            layers@ == before,
            layer_place(before, name@) == i + layer_place(before.skip(i as int), name@),
        decreases layers@.len() - i,
    {
        assert(before.skip(i as int).skip(1) =~= before.skip(i + 1));
        i = i + 1;
    }
    if i < layers.len() {
        layers.set(i, (name.to_owned(), features));
    } else {
        layers.push((name.to_owned(), features));
    }
}

/// The seconds to wait before the listener connects again, after `attempts`
/// failures: doubling, up to a minute.
pub open spec fn reconnect_delay(attempts: nat) -> nat {
    if attempts >= 6 {
        60
    } else {
        vstd::arithmetic::power2::pow2(attempts)
    }
}

/// Waits grow from attempt to attempt, up to a minute.
pub proof fn lemma_reconnect_waits_grow(a: nat, b: nat)
    requires
        a <= b,
    ensures
        reconnect_delay(a) <= reconnect_delay(b) <= 60,
{
    vstd::arithmetic::power2::lemma2_to64();
}

/// The seconds to wait before the listener connects again.
pub fn reconnect_delay_secs(attempts: u32) -> (secs: u64)
    ensures
        secs == reconnect_delay(attempts as nat),
{
    proof {
        vstd::arithmetic::power2::lemma2_to64();
    }
    match attempts {
        0 => 1,
        1 => 2,
        2 => 4,
        3 => 8,
        4 => 16,
        5 => 32,
        _ => 60,
    }
}

/// What the debounce window asks for.
#[derive(Debug, Clone, Copy, PartialEq, Eq, Structural)]
pub enum DebounceStep {
    /// Wait for another notification, for at most so many milliseconds.
    Collect { remaining_ms: u64 },
    /// Process what has been collected.
    Process,
}

/// Decide whether to go on collecting notifications: until the deadline, by a
/// clock that counts milliseconds.
pub fn debounce(deadline_ms: u64, now_ms: u64) -> (step: DebounceStep)
    ensures
        now_ms >= deadline_ms ==> step == DebounceStep::Process,
        now_ms < deadline_ms ==> step == (DebounceStep::Collect {
            remaining_ms: (deadline_ms - now_ms) as u64,
        }),
{
    if now_ms >= deadline_ms {
        DebounceStep::Process
    } else {
        DebounceStep::Collect { remaining_ms: deadline_ms - now_ms }
    }
}

/// The zooms of some tiles.
pub open spec fn zooms_of(tiles: Seq<TileCoord>) -> Set<u8> {
    Set::new(|z: u8| exists|i: int| 0 <= i < tiles.len() && (#[trigger] tiles[i]).z == z)
}

/// The layers that some changes are about, each once, in the order in which
/// they first occur.
pub open spec fn distinct_layers(layers: Seq<Seq<char>>) -> Seq<Seq<char>>
    decreases layers.len(),
{
    if layers.len() == 0 {
        Seq::empty()
    } else {
        let front = distinct_layers(layers.drop_last());
        if front.contains(layers.last()) {
            front
        } else {
            front.push(layers.last())
        }
    }
}

/// The layers of the changes at some places of a batch.
pub open spec fn layers_at(events: Seq<UpdateEvent>, places: Seq<usize>) -> Seq<Seq<char>> {
    Seq::new(places.len(), |i: int| events[places[i] as int].layer_name@)
}

/// What is reported of an update of a source: the number of its tiles, their
/// zooms, and the layers that changed.
pub open spec fn report_of(
    source: SourceConfig,
    tiles: Seq<TileCoord>,
    events: Seq<UpdateEvent>,
    places: Seq<usize>,
) -> EventModel {
    EventModel::Update {
        source: source.name@,
        tiles: tiles.len(),
        zooms: sorted_zooms(zooms_of(tiles)),
        max_zoom: source.max_zoom,
        layers: distinct_layers(layers_at(events, places)),
    }
}

/// The event that reports an update of a source.
pub fn update_report(
    source: &SourceConfig,
    tiles: &Vec<TileCoord>,
    events: &Vec<UpdateEvent>,
    places: &Vec<usize>,
) -> (event: TileEvent)
    requires
        forall|i: int| 0 <= i < places@.len() ==> #[trigger] places@[i] < events@.len(),
    ensures
        event.model() == report_of(*source, tiles@, events@, places@),
{
    broadcast use vstd::std_specs::hash::group_hash_axioms;

    let mut zooms: HashSet<u8> = HashSet::new();
    for i in 0..tiles.len()
        invariant
            zooms@ == zooms_of(tiles@.take(i as int)),
    {
        proof {
            let before = zooms_of(tiles@.take(i as int));
            let after = zooms_of(tiles@.take(i + 1));
            let z = tiles@[i as int].z;
            assert forall|y: u8| after.contains(y) <==> before.insert(z).contains(y) by {
                if after.contains(y) {
                    let k = choose|k: int|
                        0 <= k < i + 1 && (#[trigger] tiles@.take(i + 1)[k]).z == y;
                    if k < i {
                        assert(tiles@.take(i as int)[k].z == y);
                    }
                }
                if before.contains(y) {
                    let k = choose|k: int|
                        0 <= k < i && (#[trigger] tiles@.take(i as int)[k]).z == y;
                    assert(tiles@.take(i + 1)[k].z == y);
                }
                if y == z {
                    assert(tiles@.take(i + 1)[i as int].z == y);
                }
            }
            assert(after =~= before.insert(z));
        }
        zooms.insert(tiles[i].z);
    }
    assert(tiles@.take(tiles@.len() as int) =~= tiles@);

    let ghost all = layers_at(events@, places@);
    let mut layers: Vec<String> = Vec::new();
    assert(all.take(0) =~= Seq::<Seq<char>>::empty());
    assert(texts(layers@) =~= distinct_layers(all.take(0)));
    for i in 0..places.len()
        invariant
            forall|k: int| 0 <= k < places@.len() ==> #[trigger] places@[k] < events@.len(),
            all == layers_at(events@, places@),
            texts(layers@) == distinct_layers(all.take(i as int)),
    {
        let ghost held = texts(layers@);
        proof {
            assert(all.take(i + 1).last() == all[i as int]);
            assert(all.take(i + 1).drop_last() =~= all.take(i as int));
        }
        assert(places@[i as int] < events@.len());
        let name: &String = &events[places[i]].layer_name;
        if !holds_text(&layers, name.as_str()) {
            layers.push(name.clone());
            assert(texts(layers@) =~= held.push(name@));
        }
    }
    assert(all.take(all.len() as int) =~= all);
    TileEvent::update_complete(source.name.clone(), tiles.len(), &zooms, source.max_zoom, layers)
}

/// What is to be looked up for one change: the feature as it is now, and the
/// area where it was.
#[derive(Debug, Clone, Copy, PartialEq, Eq)]
pub struct FeatureLookup {
    pub layer: usize,
    pub feature_id: i64,
    pub old_bounds: Option<Bounds>,
}

/// The first layer with a name, or the number of layers.
pub open spec fn layer_index(layers: Seq<LayerConfig>, name: Seq<char>) -> int
    decreases layers.len(),
{
    if layers.len() == 0 || layers[0].name@ == name {
        0
    } else {
        1 + layer_index(layers.skip(1), name)
    }
}

/// The lookups for the changes at some places of a batch. A change of a layer
/// that the source does not have itself takes none.
pub open spec fn lookups(
    source: SourceConfig,
    events: Seq<UpdateEvent>,
    places: Seq<usize>,
) -> Seq<FeatureLookup>
    decreases places.len(),
{
    if places.len() == 0 {
        Seq::empty()
    } else {
        let front = lookups(source, events, places.drop_last());
        let event = events[places.last() as int];
        let i = layer_index(source.layers@, event.layer_name@);
        if i < source.layers@.len() {
            front.push(
                FeatureLookup {
                    layer: i as usize,
                    feature_id: event.feature_id,
                    old_bounds: event.old_bounds,
                },
            )
        } else {
            front
        }
    }
}

fn find_layer_index(source: &SourceConfig, name: &str) -> (i: usize)
    ensures
        i == layer_index(source.layers@, name@),
        i <= source.layers@.len(),
{
    let ghost all = source.layers@;
    let mut i: usize = 0;
    assert(all.skip(0) =~= all);
    while i < source.layers.len() && !same_text(source.layers[i].name.as_str(), name)
        invariant
            i <= source.layers@.len(),
            all == source.layers@,
            layer_index(all, name@) == i + layer_index(all.skip(i as int), name@),
        decreases source.layers@.len() - i,
    {
        assert(all.skip(i as int)[0] == all[i as int]);
        assert(all.skip(i as int).skip(1) =~= all.skip(i + 1));
        i = i + 1;
    }
    assert(i < all.len() ==> all.skip(i as int)[0] == all[i as int]);
    i
}

/// What is to be looked up for the changes of a source.
pub fn feature_lookups(
    source: &SourceConfig,
    events: &Vec<UpdateEvent>,
    places: &Vec<usize>,
) -> (found: Vec<FeatureLookup>)
    requires
        forall|i: int| 0 <= i < places@.len() ==> #[trigger] places@[i] < events@.len(),
    ensures
        found@ == lookups(*source, events@, places@),
{
    let mut found: Vec<FeatureLookup> = Vec::new();
    assert(places@.take(0) =~= Seq::<usize>::empty());
    for i in 0..places.len()
        invariant
            forall|k: int| 0 <= k < places@.len() ==> #[trigger] places@[k] < events@.len(),
            found@ == lookups(*source, events@, places@.take(i as int)),
    {
        assert(places@.take(i + 1).last() == places@[i as int]);
        assert(places@.take(i + 1).drop_last() =~= places@.take(i as int));
        assert(places@[i as int] < events@.len());
        let event: &UpdateEvent = &events[places[i]];
        let layer: usize = find_layer_index(source, event.layer_name.as_str());
        if layer < source.layers.len() {
            found.push(
                FeatureLookup {
                    layer,
                    feature_id: event.feature_id,
                    old_bounds: event.old_bounds,
                },
            );
        }
    }
    assert(places@.take(places@.len() as int) =~= places@);
    found
}

/// What becomes of a regenerated tile in the store.
#[derive(Debug, PartialEq, Eq)]
pub enum TileWrite {
    Delete(TileCoord),
    Put(TileCoord, Vec<u8>),
}

/// A tile without anything to draw is deleted, any other is stored.
pub fn tile_write(coord: TileCoord, data: Option<Vec<u8>>) -> (write: TileWrite)
    ensures
        match data {
            None => write == TileWrite::Delete(coord),
            Some(bytes) => write == TileWrite::Put(coord, bytes),
        },
{
    match data {
        None => TileWrite::Delete(coord),
        Some(bytes) => TileWrite::Put(coord, bytes),
    }
}

/// How many tiles are regenerated at a time: eight unless configured, and at
/// least one.
pub fn worker_count(config: &AppConfig) -> (n: usize)
    ensures
        n == (match config.updates.worker_concurrency {
            None => 8,
            Some(0) => 1,
            Some(n) => n,
        }),
{
    match config.updates.worker_concurrency {
        None => 8,
        Some(n) => if n == 0 {
            1
        } else {
            n
        },
    }
}

/// A coordinate of bounds is the number in a field, or zero where there is none.
pub open spec fn is_bound(bits: u64, json: Json, name: Seq<char>) -> bool {
    match field(json, name) {
        Some(Json::Number(text)) => match number_bits(text) {
            Some(number) => bits == number,
            None => bits == 0,
        },
        _ => bits == 0,
    }
}

/// Bounds are those of a JSON object, edge by edge.
pub open spec fn are_bounds(bounds: Bounds, json: Json) -> bool {
    &&& is_bound(bounds.min_lon, json, "min_lon"@)
    &&& is_bound(bounds.min_lat, json, "min_lat"@)
    &&& is_bound(bounds.max_lon, json, "max_lon"@)
    &&& is_bound(bounds.max_lat, json, "max_lat"@)
}

/// A JSON notification says what stands in it: the layer, the number of the feature,
/// and where it was, if that is there. Without a layer or a number it says nothing.
pub proof fn lemma_json_notification(json: Json)
    ensures
        match (field(json, "layer"@), field(json, "id"@)) {
            (Some(Json::Text(layer)), Some(Json::Number(text))) => match number_int(text) {
                Some(id) => {
                    &&& json_update(json) is Ok
                    &&& json_update(json)->Ok_0.layer == layer
                    &&& json_update(json)->Ok_0.id == id
                    &&& match (json_update(json)->Ok_0.old_bounds, field(json, "old_bounds"@)) {
                        (Some(bounds), Some(old)) => are_bounds(bounds, old),
                        (None, None) => true,
                        _ => false,
                    }
                },
                None => json_update(json) == Err::<UpdateModel, NotificationError>(
                    NotificationError::MissingId,
                ),
            },
            (Some(Json::Text(layer)), _) => json_update(json) == Err::<
                UpdateModel,
                NotificationError,
            >(NotificationError::MissingId),
            _ => json_update(json) == Err::<UpdateModel, NotificationError>(
                NotificationError::MissingLayer,
            ),
        },
{
}

/// The first colon of a text.
proof fn lemma_first_colon(text: Seq<char>)
    ensures
        0 <= colon_place(text) <= text.len(),
        colon_place(text) < text.len() ==> text[colon_place(text)] == ':',
        !text.take(colon_place(text)).contains(':'),
    decreases text.len(),
{
    if text.len() > 0 && text[0] != ':' {
        let rest = text.skip(1);
        lemma_first_colon(rest);
        let i = colon_place(text);
        if text.take(i).contains(':') {
            let k = choose|k: int| 0 <= k < i && text.take(i)[k] == ':';
            assert(k > 0);
            assert(rest.take(i - 1)[k - 1] == ':');
            assert(rest.take(i - 1).contains(':'));
        }
    }
}

/// A notification of the form `layer:id` that says a change says nothing but what
/// stands in it: the layer up to the first colon, the number that the digits behind it
/// spell, and no old bounds. One without a colon is refused for that.
pub proof fn lemma_text_notification(text: Seq<char>)
    ensures
        !text.contains(':') <==> text_update(text) == Err::<UpdateModel, NotificationError>(
            NotificationError::Format,
        ),
        text_update(text) matches Ok(update) ==> {
            let rest = text.skip(update.layer.len() as int + 1);
            let digits = if rest[0] == '-' || rest[0] == '+' {
                rest.skip(1)
            } else {
                rest
            };
            &&& update.old_bounds is None
            &&& !update.layer.contains(':')
            &&& update.layer.len() < text.len()
            &&& text.take(update.layer.len() as int) == update.layer
            &&& text[update.layer.len() as int] == ':'
            &&& digits.len() > 0
            &&& all_digits(digits)
            &&& rest[0] == '-' ==> update.id == -digits_value(digits)
            &&& rest[0] != '-' ==> update.id == digits_value(digits)
        },
{
    lemma_first_colon(text);
    let i = colon_place(text);
    if text.contains(':') {
        let k = choose|k: int| 0 <= k < text.len() && text[k] == ':';
        if i >= text.len() {
            assert(text.take(i)[k] == ':');
            assert(text.take(i).contains(':'));
        }
    } else if i < text.len() {
        assert(text.contains(text[i]));
    }
}

/// The number that digits spell: nothing for none, and ten times what the first spell
/// and the last digit. A sign or zeros before it do not change its size.
pub proof fn lemma_digits_spell_by_tens(digits: Seq<char>, d: char)
    ensures
        digits_value(Seq::<char>::empty()) == 0,
        digits_value(digits.push(d)) == 10 * digits_value(digits) + (d as int - '0' as int),
        is_digit(d) <==> 48 <= d as int <= 57,
{
    assert(digits.push(d).drop_last() =~= digits);
}

/// Notifications are read one by one: a batch says what its first part says and then
/// what its second part says, and each notification that can be read says its change.
/// None is lost: each is either a change or refused, and the refused ones are known by
/// their places.
pub proof fn lemma_batch_is_read_one_by_one(a: Seq<Seq<char>>, b: Seq<Seq<char>>, text: Seq<char>)
    ensures
        notified_all(a + b) == notified_all(a) + notified_all(b),
        notified_all(seq![text]) == match notified(text) {
            Ok(update) => seq![update],
            Err(_) => Seq::empty(),
        },
        notified_all(a).len() + rejected_all(a).len() == a.len(),
        forall|k: int|
            0 <= k < rejected_all(a).len() ==> {
                &&& (#[trigger] rejected_all(a)[k]).0 < a.len()
                &&& notified(a[rejected_all(a)[k].0 as int]) == Err::<
                    UpdateModel,
                    NotificationError,
                >(rejected_all(a)[k].1)
            },
        forall|i: int, j: int|
            0 <= i < j < rejected_all(a).len() ==> (#[trigger] rejected_all(a)[i]).0 < (
            #[trigger] rejected_all(a)[j]).0,
    decreases b.len(),
{
    lemma_rejected_are_known(a);
    assert(seq![text].drop_last() =~= Seq::<Seq<char>>::empty());
    assert(notified_all(Seq::<Seq<char>>::empty()) == Seq::<UpdateModel>::empty());
    assert(notified_all(seq![text]) =~= match notified(text) {
        Ok(update) => seq![update],
        Err(_) => Seq::empty(),
    });
    if b.len() == 0 {
        assert(a + b =~= a);
        assert(notified_all(a) + notified_all(b) =~= notified_all(a));
    } else {
        lemma_batch_is_read_one_by_one(a, b.drop_last(), text);
        assert((a + b).drop_last() =~= a + b.drop_last());
        assert(notified_all(a + b) =~= notified_all(a) + notified_all(b));
    }
}

proof fn lemma_rejected_are_known(a: Seq<Seq<char>>)
    ensures
        notified_all(a).len() + rejected_all(a).len() == a.len(),
        forall|k: int|
            0 <= k < rejected_all(a).len() ==> {
                &&& (#[trigger] rejected_all(a)[k]).0 < a.len()
                &&& notified(a[rejected_all(a)[k].0 as int]) == Err::<
                    UpdateModel,
                    NotificationError,
                >(rejected_all(a)[k].1)
            },
        forall|i: int, j: int|
            0 <= i < j < rejected_all(a).len() ==> (#[trigger] rejected_all(a)[i]).0 < (
            #[trigger] rejected_all(a)[j]).0,
    decreases a.len(),
{
    if a.len() > 0 {
        let front = a.drop_last();
        lemma_rejected_are_known(front);
        assert forall|k: int| 0 <= k < rejected_all(a).len() implies {
            &&& (#[trigger] rejected_all(a)[k]).0 < a.len()
            &&& notified(a[rejected_all(a)[k].0 as int]) == Err::<UpdateModel, NotificationError>(
                rejected_all(a)[k].1,
            )
        } by {
            if k < rejected_all(front).len() {
                assert(rejected_all(a)[k] == rejected_all(front)[k]);
                assert(front[rejected_all(front)[k].0 as int] == a[rejected_all(front)[k].0 as int]);
            }
        }
        assert forall|i: int, j: int| 0 <= i < j < rejected_all(a).len() implies (
        #[trigger] rejected_all(a)[i]).0 < (#[trigger] rejected_all(a)[j]).0 by {
            assert(rejected_all(a)[i] == rejected_all(front)[i]);
            if j < rejected_all(front).len() {
                assert(rejected_all(a)[j] == rejected_all(front)[j]);
            }
        }
    }
}

/// A change goes to the first source that has its layer, or to an earlier one of the
/// same name, and to none only where no source has it.
pub proof fn lemma_changes_reach_their_source(sources: Seq<SourceConfig>, layer: Seq<char>, i: int)
    requires
        0 <= i < sources.len(),
        source_owns(sources[i], layer),
        forall|k: int| 0 <= k < i ==> !source_owns(#[trigger] sources[k], layer),
    ensures
        0 <= route(sources, layer) <= i,
        sources[route(sources, layer)].name@ == sources[i].name@,
        forall|k: int|
            0 <= k < route(sources, layer) ==> (#[trigger] sources[k]).name@ != sources[i].name@,
        (forall|k: int| 0 <= k < i ==> (#[trigger] sources[k]).name@ != sources[i].name@) ==> route(
            sources,
            layer,
        ) == i,
{
    lemma_owner(sources, layer, i);
    lemma_named_bound(sources, sources[i].name@, i);
    lemma_named_is_first(sources, sources[i].name@);
}

proof fn lemma_named_is_first(sources: Seq<SourceConfig>, name: Seq<char>)
    ensures
        named(sources, name) >= -1,
        named(sources, name) < sources.len(),
        named(sources, name) == -1 ==> forall|k: int|
            0 <= k < sources.len() ==> (#[trigger] sources[k]).name@ != name,
        forall|k: int| 0 <= k < named(sources, name) ==> (#[trigger] sources[k]).name@ != name,
    decreases sources.len(),
{
    if sources.len() > 0 {
        let front = sources.drop_last();
        lemma_named_is_first(front, name);
        assert forall|k: int| 0 <= k < front.len() implies front[k] == #[trigger] sources[k] by {}
        if named(front, name) >= 0 {
            assert forall|k: int| 0 <= k < named(sources, name) implies (
            #[trigger] sources[k]).name@ != name by {
                assert(front[k].name@ != name);
            }
        } else {
            assert forall|k: int| 0 <= k < front.len() implies (#[trigger] sources[k]).name@
                != name by {
                assert(front[k].name@ != name);
            }
        }
    }
}

/// A change of a layer that no source has goes nowhere.
pub proof fn lemma_unknown_layers_reach_none(sources: Seq<SourceConfig>, layer: Seq<char>)
    requires
        forall|k: int| 0 <= k < sources.len() ==> !source_owns(#[trigger] sources[k], layer),
    ensures
        route(sources, layer) < 0,
{
    lemma_no_owner(sources, layer);
}

/// Changes that are grouped are all there: each that goes to a source is in the batch
/// of that source and in no other, each that goes nowhere is among the strays, and
/// nothing else is in either.
pub proof fn lemma_groups_hold_every_change(
    batches: Seq<SourceBatch>,
    unknown: Seq<usize>,
    routes: Seq<int>,
    i: int,
)
    requires
        grouped(batches, unknown, routes, routes.len() as int),
        0 <= i < routes.len() <= usize::MAX,
    ensures
        routes[i] < 0 ==> unknown.contains(i as usize) && forall|b: int|
            0 <= b < batches.len() ==> !(#[trigger] batches[b]).events@.contains(i as usize),
        routes[i] >= 0 ==> !unknown.contains(i as usize) && exists|b: int|
            0 <= b < batches.len() && (#[trigger] batches[b]).source == routes[i]
                && batches[b].events@.contains(i as usize),
        forall|b: int|
            0 <= b < batches.len() && (#[trigger] batches[b]).events@.contains(i as usize)
                ==> batches[b].source == routes[i],
        forall|b: int, j: int, k: int|
            0 <= b < batches.len() && 0 <= j < k < batches[b].events@.len() ==> (
            #[trigger] batches[b].events@[j]) < (#[trigger] batches[b].events@[k]),
        forall|a: int, b: int|
            0 <= a < b < batches.len() ==> (#[trigger] batches[a]).source != (
            #[trigger] batches[b]).source,
{
    assert(routes[i] < 0 || routes[i] >= 0);
    assert forall|b: int|
        0 <= b < batches.len() && (#[trigger] batches[b]).events@.contains(
            i as usize,
        ) implies batches[b].source == routes[i] by {
        let k = choose|k: int|
            0 <= k < batches[b].events@.len() && batches[b].events@[k] == i as usize;
        assert(routes[batches[b].events@[k] as int] == batches[b].source);
    }
    if unknown.contains(i as usize) {
        let k = choose|k: int| 0 <= k < unknown.len() && unknown[k] == i as usize;
        assert(routes[unknown[k] as int] < 0);
    }
    assert forall|b: int, j: int, k: int|
        0 <= b < batches.len() && 0 <= j < k < batches[b].events@.len() implies (
    #[trigger] batches[b].events@[j]) < (#[trigger] batches[b].events@[k]) by {
        assert(ascending_places(batches[b].events@));
    }
}

/// Every layer of a source is asked for in a tile, and so is every companion that it
/// has, under its own name and of its own kind.
pub proof fn lemma_every_layer_is_asked_for(layers: Seq<LayerConfig>, i: int)
    requires
        0 <= i < layers.len(),
    ensures
        all_requests(layers).contains(
            RequestModel { layer: i, derived: None, name: layers[i].name@ },
        ),
        layers[i].generate_label_points ==> all_requests(layers).contains(
            RequestModel {
                layer: i,
                derived: Some(DerivedGeomType::LabelPoint),
                name: layers[i].name@ + "_labels"@,
            },
        ),
        layers[i].generate_boundary_lines ==> all_requests(layers).contains(
            RequestModel {
                layer: i,
                derived: Some(DerivedGeomType::BoundaryLine),
                name: layers[i].name@ + "_boundary"@,
            },
        ),
    decreases layers.len(),
{
    let n = layers.len() - 1;
    let front = all_requests(layers.drop_last());
    let own = requests_of(layers.last(), n);
    let all = all_requests(layers);
    if i < n {
        lemma_every_layer_is_asked_for(layers.drop_last(), i);
        assert(layers.drop_last()[i] == layers[i]);
        assert forall|r: RequestModel| front.contains(r) implies #[trigger] all.contains(r) by {
            let k = choose|k: int| 0 <= k < front.len() && front[k] == r;
            assert(all[k] == r);
        }
    } else {
        assert(all[front.len() as int] == own[0]);
        if layers[i].generate_label_points {
            assert(all[front.len() as int + 1] == own[1]);
        }
        if layers[i].generate_boundary_lines {
            assert(all[all.len() - 1] == own[own.len() - 1]);
        }
    }
}

/// A request asks for a layer that is there, or for a companion that it has.
pub open spec fn is_wanted(layers: Seq<LayerConfig>, r: RequestModel) -> bool {
    &&& 0 <= r.layer < layers.len()
    &&& match r.derived {
        None => r.name == layers[r.layer].name@,
        Some(DerivedGeomType::LabelPoint) => layers[r.layer].generate_label_points && r.name
            == layers[r.layer].name@ + "_labels"@,
        Some(DerivedGeomType::BoundaryLine) => layers[r.layer].generate_boundary_lines && r.name
            == layers[r.layer].name@ + "_boundary"@,
    }
}

/// Nothing else is asked for, and nothing twice: requests come layer by layer.
pub proof fn lemma_only_layers_are_asked_for(layers: Seq<LayerConfig>)
    ensures
        forall|k: int|
            0 <= k < all_requests(layers).len() ==> is_wanted(
                layers,
                #[trigger] all_requests(layers)[k],
            ),
        forall|j: int, k: int|
            0 <= j < k < all_requests(layers).len() ==> (#[trigger] all_requests(layers)[j]).layer
                <= (#[trigger] all_requests(layers)[k]).layer && (all_requests(layers)[j].layer
                != all_requests(layers)[k].layer || all_requests(layers)[j].derived
                != all_requests(layers)[k].derived),
    decreases layers.len(),
{
    if layers.len() > 0 {
        let n = layers.len() - 1;
        let before = layers.drop_last();
        let front = all_requests(before);
        let own = requests_of(layers.last(), n);
        let all = all_requests(layers);
        lemma_only_layers_are_asked_for(before);
        assert forall|k: int| 0 <= k < all.len() implies is_wanted(layers, #[trigger] all[k]) by {
            if k < front.len() {
                assert(all[k] == front[k]);
                assert(is_wanted(before, front[k]));
                assert(before[front[k].layer] == layers[front[k].layer]);
            } else {
                assert(all[k] == own[k - front.len()]);
            }
        }
        assert forall|j: int, k: int| 0 <= j < k < all.len() implies (#[trigger] all[j]).layer <= (
        #[trigger] all[k]).layer && (all[j].layer != all[k].layer || all[j].derived
            != all[k].derived) by {
            if k < front.len() {
                assert(all[j] == front[j] && all[k] == front[k]);
            } else {
                assert(all[k] == own[k - front.len()]);
                if j < front.len() {
                    assert(all[j] == front[j]);
                    assert(is_wanted(before, front[j]));
                } else {
                    assert(all[j] == own[j - front.len()]);
                }
            }
        }
    }
}

/// The place of a layer among those of a tile is the first under its name, and behind
/// all of them where there is none.
pub proof fn lemma_layer_place_is_the_first(
    layers: Seq<(String, Vec<FeatureData>)>,
    name: Seq<char>,
)
    ensures
        0 <= layer_place(layers, name) <= layers.len(),
        layer_place(layers, name) < layers.len() ==> layers[layer_place(layers, name)].0@ == name,
        forall|k: int|
            0 <= k < layer_place(layers, name) ==> (#[trigger] layers[k]).0@ != name,
    decreases layers.len(),
{
    if layers.len() > 0 && layers[0].0@ != name {
        let rest = layers.skip(1);
        lemma_layer_place_is_the_first(rest, name);
        assert forall|k: int| 0 <= k < layer_place(layers, name) implies (#[trigger] layers[k]).0@
            != name by {
            if k > 0 {
                assert(rest[k - 1] == layers[k]);
            }
        }
    }
}

/// The listener waits a second before it connects again, twice as long after each
/// failure, and a minute at most.
pub proof fn lemma_reconnect_waits_double(attempts: nat)
    ensures
        reconnect_delay(0) == 1,
        attempts < 5 ==> reconnect_delay(attempts + 1) == 2 * reconnect_delay(attempts),
        attempts > 5 ==> reconnect_delay(attempts) == 60,
{
    vstd::arithmetic::power2::lemma2_to64();
    vstd::arithmetic::power2::lemma_pow2_unfold(attempts + 1);
}

/// The layers that changed are each named once, in the order in which they first occur.
pub proof fn lemma_layers_are_named_once(layers: Seq<Seq<char>>)
    ensures
        distinct_layers(layers).no_duplicates(),
        forall|t: Seq<char>| #[trigger] distinct_layers(layers).contains(t) <==> layers.contains(t),
        layers.len() > 0 ==> distinct_layers(layers).len() > 0 && distinct_layers(layers)[0]
            == layers[0],
        distinct_layers(layers).len() <= layers.len(),
    decreases layers.len(),
{
    if layers.len() > 0 {
        let before = layers.drop_last();
        let front = distinct_layers(before);
        let all = distinct_layers(layers);
        let last = layers.last();
        lemma_layers_are_named_once(before);
        assert(layers =~= before.push(last));
        assert forall|t: Seq<char>| #[trigger] all.contains(t) <==> layers.contains(t) by {
            if all.contains(t) {
                let k = choose|k: int| 0 <= k < all.len() && all[k] == t;
                if k < front.len() {
                    assert(front[k] == t);
                    assert(front.contains(t));
                    assert(before.contains(t));
                    let j = choose|j: int| 0 <= j < before.len() && before[j] == t;
                    assert(layers[j] == t);
                } else {
                    assert(layers[layers.len() - 1] == t);
                }
            }
            if layers.contains(t) {
                let j = choose|j: int| 0 <= j < layers.len() && layers[j] == t;
                if j < before.len() {
                    assert(before[j] == t);
                    assert(front.contains(t));
                    let k = choose|k: int| 0 <= k < front.len() && front[k] == t;
                    assert(all[k] == t);
                } else if front.contains(t) {
                    let k = choose|k: int| 0 <= k < front.len() && front[k] == t;
                    assert(all[k] == t);
                } else {
                    assert(all[front.len() as int] == t);
                }
            }
        }
        if before.len() > 0 {
            assert(before[0] == layers[0]);
        } else {
            assert(front =~= Seq::<Seq<char>>::empty());
        }
    }
}

/// An update is reported as it was: the source, how many tiles, exactly their zooms,
/// and exactly the layers of its changes.
pub proof fn lemma_report_says_what_was_done(
    source: SourceConfig,
    tiles: Seq<TileCoord>,
    events: Seq<UpdateEvent>,
    places: Seq<usize>,
    z: u8,
    layer: Seq<char>,
)
    ensures
        ({
            let report = report_of(source, tiles, events, places);
            &&& report is Update
            &&& report->Update_source == source.name@
            &&& report->Update_tiles == tiles.len()
            &&& report->Update_max_zoom == source.max_zoom
            &&& report->Update_zooms.contains(z) <==> exists|i: int|
                0 <= i < tiles.len() && (#[trigger] tiles[i]).z == z
            &&& report->Update_layers.contains(layer) <==> exists|i: int|
                0 <= i < places.len() && events[#[trigger] places[i] as int].layer_name@ == layer
            &&& report->Update_layers.no_duplicates()
        }),
{
    crate::events::lemma_sorted_zooms_members(zooms_of(tiles), 256, z);
    let all = layers_at(events, places);
    lemma_layers_are_named_once(all);
    let report = report_of(source, tiles, events, places);
    if report->Update_layers.contains(layer) {
        assert(all.contains(layer));
        let i = choose|i: int| 0 <= i < all.len() && all[i] == layer;
        assert(events[places[i] as int].layer_name@ == layer);
    }
    if exists|i: int|
        0 <= i < places.len() && events[#[trigger] places[i] as int].layer_name@ == layer {
        let i = choose|i: int|
            0 <= i < places.len() && events[#[trigger] places[i] as int].layer_name@ == layer;
        assert(all[i] == layer);
        assert(distinct_layers(all).contains(layer));
    }
}

proof fn lemma_layer_index_is_the_first(layers: Seq<LayerConfig>, name: Seq<char>)
    ensures
        0 <= layer_index(layers, name) <= layers.len(),
        layer_index(layers, name) < layers.len() ==> layers[layer_index(layers, name)].name@
            == name,
        forall|k: int|
            0 <= k < layer_index(layers, name) ==> (#[trigger] layers[k]).name@ != name,
    decreases layers.len(),
{
    if layers.len() > 0 && layers[0].name@ != name {
        let rest = layers.skip(1);
        lemma_layer_index_is_the_first(rest, name);
        assert forall|k: int| 0 <= k < layer_index(layers, name) implies (
        #[trigger] layers[k]).name@ != name by {
            if k > 0 {
                assert(rest[k - 1] == layers[k]);
            }
        }
    }
}

/// A lookup is for a change: for its feature, in the first layer of its name, and with
/// exactly the bounds that the feature had.
pub open spec fn looks_up(source: SourceConfig, lookup: FeatureLookup, event: UpdateEvent) -> bool {
    &&& lookup.layer < source.layers@.len()
    &&& source.layers@[lookup.layer as int].name@ == event.layer_name@
    &&& forall|k: int|
        0 <= k < lookup.layer ==> (#[trigger] source.layers@[k]).name@ != event.layer_name@
    &&& lookup.feature_id == event.feature_id
    &&& lookup.old_bounds == event.old_bounds
}

/// A source has a layer of a name.
pub open spec fn has_layer(source: SourceConfig, name: Seq<char>) -> bool {
    exists|k: int| 0 <= k < source.layers@.len() && (#[trigger] source.layers@[k]).name@ == name
}

/// How many of some changes are about layers that a source has.
pub open spec fn known_count(
    source: SourceConfig,
    events: Seq<UpdateEvent>,
    places: Seq<usize>,
) -> nat
    decreases places.len(),
{
    if places.len() == 0 {
        0
    } else {
        known_count(source, events, places.drop_last()) + if has_layer(
            source,
            events[places.last() as int].layer_name@,
        ) {
            1nat
        } else {
            0nat
        }
    }
}

/// Every change is looked up where the source has its layer, at the place that it has
/// among those changes: its feature, and the area where it was. There is no other
/// lookup. So a feature that has moved or gone makes the tiles stale where it was.
pub proof fn lemma_every_change_is_looked_up(
    source: SourceConfig,
    events: Seq<UpdateEvent>,
    places: Seq<usize>,
)
    requires
        source.layers@.len() <= usize::MAX,
    ensures
        lookups(source, events, places).len() == known_count(source, events, places),
        forall|i: int|
            0 <= i < places.len() && has_layer(source, events[places[i] as int].layer_name@)
                ==> known_count(source, events, places.take(i)) < lookups(
                source,
                events,
                places,
            ).len() && looks_up(
                source,
                lookups(source, events, places)[known_count(source, events, places.take(i)) as int],
                events[#[trigger] places[i] as int],
            ),
    decreases places.len(),
{
    if places.len() > 0 {
        let before = places.drop_last();
        let front = lookups(source, events, before);
        let all = lookups(source, events, places);
        let n = places.len() - 1;
        let event = events[places[n] as int];
        lemma_every_change_is_looked_up(source, events, before);
        lemma_layer_index_is_the_first(source.layers@, event.layer_name@);
        let k = layer_index(source.layers@, event.layer_name@);
        if k < source.layers@.len() {
            assert(source.layers@[k].name@ == event.layer_name@);
            assert(has_layer(source, event.layer_name@));
        } else {
            assert(!has_layer(source, event.layer_name@));
        }
        assert forall|i: int|
            0 <= i < places.len() && has_layer(
                source,
                events[places[i] as int].layer_name@,
            ) implies known_count(source, events, places.take(i)) < all.len() && looks_up(
            source,
            all[known_count(source, events, places.take(i)) as int],
            events[#[trigger] places[i] as int],
        ) by {
            if i < n {
                assert(before[i] == places[i]);
                assert(before.take(i) =~= places.take(i));
            } else {
                assert(places.take(n) =~= before);
            }
        }
    }
}

/// Changes and queries are all that stands in them, and are taken one for one.
pub proof fn lemma_changes_are_all_of_themselves(
    events: Seq<UpdateEvent>,
    requests: Seq<LayerRequest>,
)
    ensures
        update_models(events).len() == events.len(),
        forall|i: int|
            0 <= i < events.len() ==> (#[trigger] update_models(events)[i]).layer
                == events[i].layer_name@ && update_models(events)[i].id == events[i].feature_id
                && update_models(events)[i].old_bounds == events[i].old_bounds,
        request_models(requests).len() == requests.len(),
        forall|i: int|
            0 <= i < requests.len() ==> (#[trigger] request_models(requests)[i]).layer
                == requests[i].layer && request_models(requests)[i].derived == requests[i].derived
                && request_models(requests)[i].name == requests[i].name@,
{
}

/// A notification has the outcome that its model has: the change that it says, or the
/// error.
pub proof fn lemma_outcome_is_that_of_the_model(
    res: Result<UpdateEvent, NotificationError>,
    model: Result<UpdateModel, NotificationError>,
)
    requires
        update_result(res, model),
    ensures
        match (res, model) {
            (Ok(event), Ok(said)) => said.layer == event.layer_name@ && said.id == event.feature_id
                && said.old_bounds == event.old_bounds,
            (Err(e), Err(said)) => e == said,
            _ => false,
        },
{
}

/// A notification that is JSON is read as that, and any other as `layer:id`.
pub proof fn lemma_json_comes_first(text: Seq<char>)
    ensures
        parsed_json(text) is Some ==> notified(text) == json_update(parsed_json(text)->0),
        parsed_json(text) is None ==> notified(text) == text_update(text),
{
}

/// Each change of a batch goes where its layer's changes go.
pub proof fn lemma_routes_one_for_one(sources: Seq<SourceConfig>, events: Seq<UpdateEvent>)
    ensures
        routes(sources, events).len() == events.len(),
        forall|i: int|
            0 <= i < events.len() ==> #[trigger] routes(sources, events)[i] == route(
                sources,
                events[i].layer_name@,
            ),
{
}

/// Digits are read as the number that they spell as long as 64 bits hold it, also
/// behind a plus sign, and as its negative behind a minus sign.
pub proof fn lemma_signs_and_digits_are_read(digits: Seq<char>)
    requires
        digits.len() > 0,
        forall|i: int| 0 <= i < digits.len() ==> '0' <= #[trigger] digits[i] <= '9',
    ensures
        digits_value(digits) <= i64::MAX ==> int_of_text(digits) == Some(
            digits_value(digits) as i64,
        ),
        digits_value(digits) <= i64::MAX ==> int_of_text(seq!['+'] + digits) == Some(
            digits_value(digits) as i64,
        ),
        -digits_value(digits) >= i64::MIN ==> int_of_text(seq!['-'] + digits) == Some(
            (-digits_value(digits)) as i64,
        ),
        digits_value(digits) > i64::MAX ==> int_of_text(digits) is None,
{
    lemma_digits_value_is_natural(digits);
    assert(all_digits(digits));
    assert((seq!['+'] + digits).skip(1) =~= digits);
    assert((seq!['-'] + digits).skip(1) =~= digits);
    assert('0' <= digits[0] <= '9');
}

proof fn lemma_digits_value_is_natural(digits: Seq<char>)
    requires
        forall|i: int| 0 <= i < digits.len() ==> '0' <= #[trigger] digits[i] <= '9',
    ensures
        digits_value(digits) >= 0,
    decreases digits.len(),
{
    if digits.len() > 0 {
        let front = digits.drop_last();
        assert forall|i: int| 0 <= i < front.len() implies '0' <= #[trigger] front[i] <= '9' by {
            assert(front[i] == digits[i]);
        }
        lemma_digits_value_is_natural(front);
        assert('0' <= digits[digits.len() - 1] <= '9');
    }
}

} // verus!
