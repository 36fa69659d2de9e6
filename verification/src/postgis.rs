//! What is asked of the database, and what its answers say of a layer.
use crate::config::{DerivedGeomType, LayerConfig};
use crate::json::{
    collected, field, field_in, field_models, json_from_fields, json_from_int, json_from_items, json_from_text,
    json_of, jsons, object_text, write_object, Json,
};
use crate::text::{copied, has_part, joined, lemma_has_part, signed_decimal, texts};
use serde_json::Value;
use vstd::prelude::*;

verus! {

/// An area in degrees, as the bits of IEEE 754 doubles.
#[derive(Debug, Clone, Copy, PartialEq, Eq, Structural)]
pub struct Bounds {
    pub min_lon: u64,
    pub min_lat: u64,
    pub max_lon: u64,
    pub max_lat: u64,
}

/// A configured name, or the one that is used without.
pub open spec fn or_default(name: Option<String>, default_name: Seq<char>) -> Seq<char> {
    match name {
        Some(name) => name@,
        None => default_name,
    }
}

impl LayerConfig {
    /// The schema of the layer's table.
    pub open spec fn schema_name(&self) -> Seq<char> {
        or_default(self.schema, "public"@)
    }

    /// The column of the layer's geometry.
    pub open spec fn geometry_name(&self) -> Seq<char> {
        or_default(self.geometry_column, "geom"@)
    }

    /// The column of the layer's feature numbers.
    pub open spec fn id_name(&self) -> Seq<char> {
        or_default(self.id_column, "id"@)
    }
}

fn name_or(name: &Option<String>, default_name: &str) -> (found: String)
    ensures
        found@ == or_default(*name, default_name@),
{
    match name {
        Some(name) => name.clone(),
        None => default_name.to_owned(),
    }
}

/// A name in double quotes.
pub open spec fn quoted(name: Seq<char>) -> Seq<char> {
    "\""@ + name + "\""@
}

fn quote(name: &str) -> (text: String)
    ensures
        text@ == quoted(name@),
{
    let mut text: String = joined("\"", name);
    text.append("\"");
    text
}

/// Quoted names with commas between them.
pub open spec fn quoted_list(names: Seq<Seq<char>>) -> Seq<char>
    decreases names.len(),
{
    if names.len() == 0 {
        Seq::empty()
    } else if names.len() == 1 {
        quoted(names[0])
    } else {
        quoted_list(names.drop_last()) + ", "@ + quoted(names.last())
    }
}

/// What is selected for a feature's properties: the configured columns, or all.
pub open spec fn selected_properties(layer: LayerConfig) -> Seq<char> {
    match layer.properties {
        Some(names) => quoted_list(texts(names@)),
        None => "*"@,
    }
}

fn select_properties(layer: &LayerConfig) -> (text: String)
    ensures
        text@ == selected_properties(*layer),
{
    match &layer.properties {
        None => "*".to_owned(),
        Some(names) => {
            let ghost all = texts(names@);
            let mut text: String = String::new();
            assert(all.take(0) =~= Seq::<Seq<char>>::empty());
            for i in 0..names.len()
                invariant
                    all == texts(names@),
                    text@ == quoted_list(all.take(i as int)),
            {
                assert(all.take(i + 1).last() == all[i as int]);
                assert(all.take(i + 1).drop_last() =~= all.take(i as int));
                if i > 0 {
                    text.append(", ");
                }
                text.append(quote(names[i].as_str()).as_str());
                assert(i == 0 ==> text@ =~= quoted(all[0]));
                assert(i == 0 ==> all.take(1)[0] == all[0]);
            }
            assert(all.take(all.len() as int) =~= all);
            text
        },
    }
}

/// The geometry that is read: the column itself, or what is derived from it.
pub open spec fn geometry_expression(layer: LayerConfig, derived: Option<DerivedGeomType>) -> Seq<
    char,
> {
    let column = quoted(layer.geometry_name());
    match derived {
        None => column,
        Some(DerivedGeomType::LabelPoint) => "ST_PointOnSurface("@ + column + ")"@,
        Some(DerivedGeomType::BoundaryLine) => "ST_Boundary("@ + column + ")"@,
    }
}

fn geometry_text(layer: &LayerConfig, derived: Option<DerivedGeomType>) -> (text: String)
    ensures
        text@ == geometry_expression(*layer, derived),
{
    let column: String = quote(name_or(&layer.geometry_column, "geom").as_str());
    match derived {
        None => column,
        Some(DerivedGeomType::LabelPoint) => {
            let mut text: String = joined("ST_PointOnSurface(", column.as_str());
            text.append(")");
            text
        },
        Some(DerivedGeomType::BoundaryLine) => {
            let mut text: String = joined("ST_Boundary(", column.as_str());
            text.append(")");
            text
        },
    }
}

/// The start of a query for features: their numbers, geometries and properties.
pub open spec fn select_features(layer: LayerConfig, derived: Option<DerivedGeomType>) -> Seq<char> {
    "SELECT "@ + quoted(layer.id_name()) + " as feature_id, ST_AsGeoJSON(ST_Transform("@
        + geometry_expression(layer, derived)
        + ", 4326))::json as geometry, row_to_json((SELECT r FROM (SELECT "@ + selected_properties(
        layer,
    ) + ") r)) as properties"@
}

/// The table of a layer, in a query.
pub open spec fn from_table(layer: LayerConfig) -> Seq<char> {
    " FROM "@ + quoted(layer.schema_name()) + "."@ + quoted(layer.table@)
}

/// The configured filter, in a query.
pub open spec fn and_filter(layer: LayerConfig) -> Seq<char> {
    match layer.filter {
        Some(filter) => " AND ("@ + filter@ + ")"@,
        None => Seq::empty(),
    }
}

fn push_select(query: &mut String, layer: &LayerConfig, derived: Option<DerivedGeomType>)
    ensures
        final(query)@ == old(query)@ + select_features(*layer, derived),
{
    let ghost before = query@;
    query.append("SELECT ");
    query.append(quote(name_or(&layer.id_column, "id").as_str()).as_str());
    query.append(" as feature_id, ST_AsGeoJSON(ST_Transform(");
    query.append(geometry_text(layer, derived).as_str());
    query.append(", 4326))::json as geometry, row_to_json((SELECT r FROM (SELECT ");
    query.append(select_properties(layer).as_str());
    query.append(") r)) as properties");
    assert(query@ =~= before + select_features(*layer, derived));
}

fn push_table(query: &mut String, layer: &LayerConfig)
    ensures
        final(query)@ == old(query)@ + from_table(*layer),
{
    let ghost before = query@;
    query.append(" FROM ");
    query.append(quote(name_or(&layer.schema, "public").as_str()).as_str());
    query.append(".");
    query.append(quote(layer.table.as_str()).as_str());
    assert(query@ =~= before + from_table(*layer));
}

fn push_filter(query: &mut String, layer: &LayerConfig)
    ensures
        final(query)@ == old(query)@ + and_filter(*layer),
{
    let ghost before = query@;
    match &layer.filter {
        Some(filter) => {
            query.append(" AND (");
            query.append(filter.as_str());
            query.append(")");
        },
        None => {},
    }
    assert(query@ =~= before + and_filter(*layer));
}

/// The query for all features of a layer, or of what is derived from it.
pub fn export_query(layer: &LayerConfig, derived: Option<DerivedGeomType>) -> (query: String)
    ensures
        query@ == select_features(*layer, derived) + from_table(*layer) + " WHERE "@ + quoted(
            layer.geometry_name(),
        ) + " IS NOT NULL"@ + and_filter(*layer),
{
    let mut query: String = String::new();
    push_select(&mut query, layer, derived);
    assert(query@ =~= select_features(*layer, derived));
    push_table(&mut query, layer);
    query.append(" WHERE ");
    query.append(quote(name_or(&layer.geometry_column, "geom").as_str()).as_str());
    query.append(" IS NOT NULL");
    push_filter(&mut query, layer);
    query
}

/// One edge of a feature's bounding box.
pub open spec fn box_edge(layer: LayerConfig, function: Seq<char>, name: Seq<char>) -> Seq<char> {
    ", "@ + function + "(ST_Transform(ST_Envelope("@ + quoted(layer.geometry_name())
        + "), 4326)) as "@ + name
}

fn push_edge(query: &mut String, layer: &LayerConfig, function: &str, name: &str)
    ensures
        final(query)@ == old(query)@ + box_edge(*layer, function@, name@),
{
    let ghost before = query@;
    query.append(", ");
    query.append(function);
    query.append("(ST_Transform(ST_Envelope(");
    query.append(quote(name_or(&layer.geometry_column, "geom").as_str()).as_str());
    query.append("), 4326)) as ");
    query.append(name);
    assert(query@ =~= before + box_edge(*layer, function@, name@));
}

/// The query for one feature of a layer and its bounding box; the parameter is
/// its number.
pub fn feature_query(layer: &LayerConfig) -> (query: String)
    ensures
        query@ == select_features(*layer, None) + box_edge(*layer, "ST_XMin"@, "xmin"@) + box_edge(
            *layer,
            "ST_YMin"@,
            "ymin"@,
        ) + box_edge(*layer, "ST_XMax"@, "xmax"@) + box_edge(*layer, "ST_YMax"@, "ymax"@)
            + from_table(*layer) + " WHERE "@ + quoted(layer.id_name()) + " = $1 AND "@ + quoted(
            layer.geometry_name(),
        ) + " IS NOT NULL"@ + and_filter(*layer),
{
    let mut query: String = String::new();
    push_select(&mut query, layer, None);
    assert(query@ =~= select_features(*layer, None));
    push_edge(&mut query, layer, "ST_XMin", "xmin");
    push_edge(&mut query, layer, "ST_YMin", "ymin");
    push_edge(&mut query, layer, "ST_XMax", "xmax");
    push_edge(&mut query, layer, "ST_YMax", "ymax");
    push_table(&mut query, layer);
    query.append(" WHERE ");
    query.append(quote(name_or(&layer.id_column, "id").as_str()).as_str());
    query.append(" = $1 AND ");
    query.append(quote(name_or(&layer.geometry_column, "geom").as_str()).as_str());
    query.append(" IS NOT NULL");
    push_filter(&mut query, layer);
    query
}

/// The query for the features of a layer, or of what is derived from it, that
/// meet an area; the parameters are its west, south, east and north edges.
pub fn bounds_query(layer: &LayerConfig, derived: Option<DerivedGeomType>) -> (query: String)
    ensures
        query@ == select_features(*layer, derived) + from_table(*layer) + " WHERE "@ + quoted(
            layer.geometry_name(),
        ) + " IS NOT NULL AND ST_Intersects(ST_Transform("@ + quoted(layer.geometry_name())
            + ", 4326), ST_MakeEnvelope($1, $2, $3, $4, 4326))"@ + and_filter(*layer),
{
    let mut query: String = String::new();
    push_select(&mut query, layer, derived);
    assert(query@ =~= select_features(*layer, derived));
    push_table(&mut query, layer);
    query.append(" WHERE ");
    query.append(quote(name_or(&layer.geometry_column, "geom").as_str()).as_str());
    query.append(" IS NOT NULL AND ST_Intersects(ST_Transform(");
    query.append(quote(name_or(&layer.geometry_column, "geom").as_str()).as_str());
    query.append(", 4326), ST_MakeEnvelope($1, $2, $3, $4, 4326))");
    push_filter(&mut query, layer);
    query
}

/// What is checked of a layer.
#[derive(Debug, Clone, Copy, PartialEq, Eq, Structural)]
pub enum CheckKind {
    Table,
    GeometryColumn,
    IdColumn,
    PropertyColumn,
    Trigger,
}

/// One check of a layer: what is looked for, and the column where it is one.
#[derive(Debug)]
pub struct LayerCheck {
    pub kind: CheckKind,
    pub column: String,
}

/// What a check is.
pub type CheckModel = (CheckKind, Seq<char>);

/// What some checks are.
pub open spec fn check_models(checks: Seq<LayerCheck>) -> Seq<CheckModel> {
    Seq::new(checks.len(), |i: int| (checks[i].kind, checks[i].column@))
}

/// Checks of one kind for some columns.
pub open spec fn column_checks(kind: CheckKind, columns: Seq<Seq<char>>) -> Seq<CheckModel> {
    Seq::new(columns.len(), |i: int| (kind, columns[i]))
}

/// The checks of a layer, in order: its table, its geometry columns, its number
/// column, its properties, and the trigger that notifies of changes.
pub open spec fn checks_of(layer: LayerConfig) -> Seq<CheckModel> {
    seq![(CheckKind::Table, Seq::empty())] + column_checks(
        CheckKind::GeometryColumn,
        layer.geometry_column_names(),
    ) + seq![(CheckKind::IdColumn, layer.id_name())] + (match layer.properties {
        Some(names) => column_checks(CheckKind::PropertyColumn, texts(names@)),
        None => Seq::empty(),
    }) + seq![(CheckKind::Trigger, Seq::empty())]
}

fn push_columns(checks: &mut Vec<LayerCheck>, kind: CheckKind, columns: Vec<String>)
    ensures
        check_models(final(checks)@) == check_models(old(checks)@) + column_checks(
            kind,
            texts(columns@),
        ),
{
    let ghost before = check_models(checks@);
    let ghost all = column_checks(kind, texts(columns@));
    assert(before + all.take(0) =~= before);
    for i in 0..columns.len()
        invariant
            all == column_checks(kind, texts(columns@)),
            check_models(checks@) == before + all.take(i as int),
    {
        let ghost held = checks@;
        checks.push(LayerCheck { kind, column: columns[i].clone() });
        assert(check_models(checks@) =~= check_models(held).push(all[i as int]));
        assert(check_models(checks@) =~= before + all.take(i as int + 1));
    }
    assert(all.take(all.len() as int) =~= all);
}

/// The checks of a layer, in order.
pub fn layer_checks(layer: &LayerConfig) -> (checks: Vec<LayerCheck>)
    ensures
        check_models(checks@) == checks_of(*layer),
{
    let mut checks: Vec<LayerCheck> = Vec::new();
    checks.push(LayerCheck { kind: CheckKind::Table, column: String::new() });
    assert(check_models(checks@) =~= seq![(CheckKind::Table, Seq::<char>::empty())]);
    push_columns(&mut checks, CheckKind::GeometryColumn, layer.geometry_columns());
    let ghost held = checks@;
    checks.push(LayerCheck { kind: CheckKind::IdColumn, column: name_or(&layer.id_column, "id") });
    assert(check_models(checks@) =~= check_models(held) + seq![
        (CheckKind::IdColumn, layer.id_name()),
    ]);
    let ghost held = checks@;
    match &layer.properties {
        Some(names) => {
            push_columns(&mut checks, CheckKind::PropertyColumn, copied(names));
        },
        None => {
            assert(check_models(checks@) =~= check_models(held) + Seq::<CheckModel>::empty());
        },
    }
    let ghost held = checks@;
    checks.push(LayerCheck { kind: CheckKind::Trigger, column: String::new() });
    assert(check_models(checks@) =~= check_models(held) + seq![
        (CheckKind::Trigger, Seq::<char>::empty()),
    ]);
    checks
}

/// The check to make after some have been answered: the next in order, and none
/// where the table is missing or all have been made.
pub fn next_check(layer: &LayerConfig, answers: &Vec<bool>) -> (next: Option<LayerCheck>)
    ensures
        match next {
            Some(check) => (answers@.len() == 0 || answers@[0]) && answers@.len() < checks_of(
                *layer,
            ).len() && checks_of(*layer)[answers@.len() as int] == (check.kind, check.column@),
            None => (answers@.len() > 0 && !answers@[0]) || answers@.len() >= checks_of(
                *layer,
            ).len(),
        },
{
    let mut checks: Vec<LayerCheck> = layer_checks(layer);
    let ghost models = check_models(checks@);
    assert(models.len() == checks@.len());
    let i: usize = answers.len();
    if (i > 0 && !answers[0]) || i >= checks.len() {
        None
    } else {
        assert(models[i as int] == (checks@[i as int].kind, checks@[i as int].column@));
        Some(checks.remove(i))
    }
}

/// The query that answers a check. Its parameters are the schema and the table,
/// and the column where one is looked for.
pub fn check_query(kind: CheckKind) -> (query: &'static str)
    ensures
        query@ == (match kind {
            CheckKind::Table => "SELECT EXISTS(SELECT 1 FROM information_schema.tables WHERE table_schema = $1 AND table_name = $2)"@,
            CheckKind::Trigger => "SELECT EXISTS(SELECT 1 FROM information_schema.triggers WHERE event_object_schema = $1 AND event_object_table = $2 AND trigger_name LIKE '%tile_update%')"@,
            _ => "SELECT EXISTS(SELECT 1 FROM information_schema.columns WHERE table_schema = $1 AND table_name = $2 AND column_name = $3)"@,
        }),
{
    match kind {
        CheckKind::Table => "SELECT EXISTS(SELECT 1 FROM information_schema.tables WHERE table_schema = $1 AND table_name = $2)",
        CheckKind::Trigger => "SELECT EXISTS(SELECT 1 FROM information_schema.triggers WHERE event_object_schema = $1 AND event_object_table = $2 AND trigger_name LIKE '%tile_update%')",
        _ => "SELECT EXISTS(SELECT 1 FROM information_schema.columns WHERE table_schema = $1 AND table_name = $2 AND column_name = $3)",
    }
}

/// The table of a layer, in a message.
pub open spec fn table_text(layer: LayerConfig) -> Seq<char> {
    quoted(layer.schema_name()) + "."@ + quoted(layer.table@)
}

/// What is said of a check that fails.
pub open spec fn issue_of(layer: LayerConfig, check: CheckModel) -> Seq<char> {
    match check.0 {
        CheckKind::Table => "Table "@ + table_text(layer) + " does not exist"@,
        CheckKind::GeometryColumn => "Geometry column "@ + quoted(check.1) + " does not exist in "@
            + table_text(layer),
        CheckKind::IdColumn => "ID column "@ + quoted(check.1) + " does not exist in "@
            + table_text(layer),
        CheckKind::PropertyColumn => "Property column "@ + quoted(check.1) + " does not exist in "@
            + table_text(layer),
        CheckKind::Trigger => "No tile_update trigger found on "@ + table_text(layer),
    }
}

fn issue_text(layer: &LayerConfig, check: &LayerCheck) -> (text: String)
    ensures
        text@ == issue_of(*layer, (check.kind, check.column@)),
{
    let mut table: String = quote(name_or(&layer.schema, "public").as_str());
    table.append(".");
    table.append(quote(layer.table.as_str()).as_str());
    let column: String = quote(check.column.as_str());
    match check.kind {
        CheckKind::Table => {
            let mut text: String = joined("Table ", table.as_str());
            text.append(" does not exist");
            text
        },
        CheckKind::GeometryColumn => missing_column("Geometry column ", &column, &table),
        CheckKind::IdColumn => missing_column("ID column ", &column, &table),
        CheckKind::PropertyColumn => missing_column("Property column ", &column, &table),
        CheckKind::Trigger => joined("No tile_update trigger found on ", table.as_str()),
    }
}

fn missing_column(what: &str, column: &String, table: &String) -> (text: String)
    ensures
        text@ == what@ + column@ + " does not exist in "@ + table@,
{
    let mut text: String = joined(what, column.as_str());
    text.append(" does not exist in ");
    text.append(table.as_str());
    text
}

/// What is said of the checks behind the first, among the first `n`, that have
/// failed.
pub open spec fn failures(
    layer: LayerConfig,
    checks: Seq<CheckModel>,
    answers: Seq<bool>,
    n: nat,
) -> Seq<Seq<char>>
    decreases n,
{
    if n <= 1 {
        Seq::empty()
    } else {
        let front = failures(layer, checks, answers, (n - 1) as nat);
        if answers[n - 1] {
            front
        } else {
            front.push(issue_of(layer, checks[n - 1]))
        }
    }
}

/// What is said of a layer: only that its table is missing, where it is, and
/// else of every other check that has failed.
pub open spec fn issues_of(layer: LayerConfig, answers: Seq<bool>) -> Seq<Seq<char>> {
    let checks = checks_of(layer);
    if !answers[0] {
        seq![issue_of(layer, checks[0])]
    } else {
        failures(layer, checks, answers, checks.len())
    }
}

/// What is wrong with a layer, given the answers to its checks. Where its table
/// is missing, no other answer is needed.
pub fn layer_issues(layer: &LayerConfig, answers: &Vec<bool>) -> (issues: Vec<String>)
    requires
        answers@.len() > 0,
        answers@[0] ==> answers@.len() == checks_of(*layer).len(),
    ensures
        texts(issues@) == issues_of(*layer, answers@),
{
    let checks: Vec<LayerCheck> = layer_checks(layer);
    let ghost models = check_models(checks@);
    let mut issues: Vec<String> = Vec::new();
    assert(models.len() == checks@.len());
    assert(checks_of(*layer).len() > 0);
    if !answers[0] {
        assert(models[0] == (checks@[0].kind, checks@[0].column@));
        issues.push(issue_text(layer, &checks[0]));
        assert(texts(issues@) =~= issues_of(*layer, answers@));
        return issues;
    }
    assert(texts(issues@) =~= Seq::<Seq<char>>::empty());
    let mut i: usize = 1;
    while i < checks.len()
        invariant
            1 <= i <= checks@.len(),
            checks@.len() == answers@.len(),
            models == check_models(checks@),
            texts(issues@) == failures(*layer, models, answers@, i as nat),
        decreases checks@.len() - i,
    {
        let ghost held = issues@;
        assert(models[i as int] == (checks@[i as int].kind, checks@[i as int].column@));
        if !answers[i] {
            issues.push(issue_text(layer, &checks[i]));
            assert(texts(issues@) =~= texts(held).push(issue_of(*layer, models[i as int])));
        }
        i = i + 1;
    }
    issues
}

/// A layer is in order exactly when all its checks succeed.
pub proof fn lemma_no_issues_iff_all_checks_succeed(layer: LayerConfig, answers: Seq<bool>)
    requires
        answers.len() == checks_of(layer).len(),
    ensures
        issues_of(layer, answers).len() == 0 <==> (forall|i: int|
            0 <= i < answers.len() ==> #[trigger] answers[i]),
{
    lemma_failures_empty(layer, checks_of(layer), answers, checks_of(layer).len());
    if answers[0] {
        assert((forall|i: int| 1 <= i < answers.len() ==> #[trigger] answers[i]) ==> (forall|i: int|
            0 <= i < answers.len() ==> #[trigger] answers[i]));
    }
}

proof fn lemma_failures_empty(
    layer: LayerConfig,
    checks: Seq<CheckModel>,
    answers: Seq<bool>,
    n: nat,
)
    requires
        n <= answers.len(),
    ensures
        failures(layer, checks, answers, n).len() == 0 <==> (forall|i: int|
            1 <= i < n ==> #[trigger] answers[i]),
    decreases n,
{
    if n > 1 {
        lemma_failures_empty(layer, checks, answers, (n - 1) as nat);
        if failures(layer, checks, answers, n).len() == 0 {
            assert forall|i: int| 1 <= i < n implies #[trigger] answers[i] by {
                if i < n - 1 {
                    assert(answers[i]);
                }
            }
        } else {
            assert(!answers[n - 1] || failures(layer, checks, answers, (n - 1) as nat).len() > 0);
        }
    }
}

/// What follows a failed attempt to connect.
#[derive(Debug, Clone, Copy, PartialEq, Eq, Structural)]
pub enum ConnectStep {
    GiveUp,
    Wait { secs: u64 },
}

/// Decide what follows the failed attempt number `attempt`, counted from one:
/// give up after the last, and else wait twice as long each time, up to 32
/// seconds.
pub fn after_failed_connect(attempt: u32, max_retries: u32) -> (step: ConnectStep)
    ensures
        step == (if attempt >= max_retries {
            ConnectStep::GiveUp
        } else {
            ConnectStep::Wait {
                secs: vstd::arithmetic::power2::pow2(
                    (if attempt < 5 {
                        attempt
                    } else {
                        5u32
                    }) as nat,
                ) as u64,
            }
        }),
{
    proof {
        vstd::arithmetic::power2::lemma2_to64();
    }
    if attempt >= max_retries {
        return ConnectStep::GiveUp;
    }
    let secs: u64 = match attempt {
        0 => 1,
        1 => 2,
        2 => 4,
        3 => 8,
        4 => 16,
        _ => 32,
    };
    ConnectStep::Wait { secs }
}

/// A feature in GeoJSON, by its number, its geometry and its properties.
pub open spec fn geojson_feature(id: i64, geometry: Json, properties: Json) -> Json {
    Json::Object(
        seq![
            ("geometry"@, geometry),
            ("id"@, Json::Number(signed_decimal(id as int))),
            ("properties"@, properties),
            ("type"@, Json::Text("Feature"@)),
        ],
    )
}

/// Features in GeoJSON.
pub open spec fn geojson_features(features: Seq<(i64, Value, Value)>) -> Seq<Json> {
    Seq::new(
        features.len(),
        |i: int| geojson_feature(features[i].0, json_of(features[i].1), json_of(features[i].2)),
    )
}

/// The fields of a GeoJSON feature collection.
pub open spec fn collection_fields(features: Seq<Json>) -> Seq<(Seq<char>, Json)> {
    seq![
        ("type"@, Json::Text("FeatureCollection"@)),
        ("features"@, Json::Array(features)),
    ]
}

fn feature_value(id: i64, geometry: Value, properties: Value) -> (value: Value)
    ensures
        json_of(value) == geojson_feature(id, json_of(geometry), json_of(properties)),
{
    let ghost expected = geojson_feature(id, json_of(geometry), json_of(properties))->Object_0;
    let mut fields: Vec<(String, Value)> = Vec::new();
    fields.push(("geometry".to_owned(), geometry));
    fields.push(("id".to_owned(), json_from_int(id)));
    fields.push(("properties".to_owned(), properties));
    fields.push(("type".to_owned(), json_from_text("Feature".to_owned())));
    proof {
        reveal_strlit("geometry");
        reveal_strlit("id");
        reveal_strlit("properties");
        reveal_strlit("type");
        assert(field_models(fields@) =~= expected);
    }
    json_from_fields(fields)
}

/// The GeoJSON text of the rows of a layer: a collection of features, each with its
/// number, its geometry and its properties. None where JSON cannot be written.
pub fn feature_collection(features: Vec<(i64, Value, Value)>) -> (text: Option<String>)
    ensures
        match text {
            Some(text) => object_text(
                collected(collection_fields(geojson_features(features@))),
            ) == Some(text@),
            None => object_text(collected(collection_fields(geojson_features(features@)))) is None,
        },
{
    let ghost all = features@;
    let ghost expected = geojson_features(all);
    let mut items: Vec<Value> = Vec::new();
    assert(jsons(items@) =~= expected.take(0));
    for row in it: features
        invariant
            it.seq() == all,
            expected == geojson_features(all),
            jsons(items@) == expected.take(it.index() as int),
    {
        let ghost held = items@;
        let ghost n = it.index() as int;
        let (id, geometry, properties): (i64, Value, Value) = row;
        let item: Value = feature_value(id, geometry, properties);
        let ghost json = json_of(item);
        items.push(item);
        proof {
            assert(json == expected[n]);
            assert(jsons(items@) =~= jsons(held).push(json));
            assert(expected.take(n + 1) =~= expected.take(n).push(expected[n]));
        }
    }
    assert(jsons(items@) =~= expected);
    let mut fields: Vec<(String, Value)> = Vec::new();
    fields.push(("type".to_owned(), json_from_text("FeatureCollection".to_owned())));
    fields.push(("features".to_owned(), json_from_items(items)));
    assert(field_models(fields@) =~= collection_fields(expected));
    match write_object(fields) {
        Ok(text) => Some(text),
        Err(_) => None,
    }
}

/// Where name `i` of a list stands: behind the names before it, each with its two
/// quotes, a comma and a space.
pub open spec fn name_start(names: Seq<Seq<char>>, i: int) -> int
    decreases i,
{
    if i <= 0 {
        0
    } else {
        name_start(names, i - 1) + names[i - 1].len() + 4
    }
}

/// Name `i` of a list stands at its place in a text, in quotes, with a comma and a
/// space behind it if another one follows.
pub open spec fn name_stands(text: Seq<char>, names: Seq<Seq<char>>, i: int) -> bool {
    let start = name_start(names, i);
    let end = start + names[i].len() + 2;
    &&& 0 <= start && end <= text.len()
    &&& text[start] == '"'
    &&& text.subrange(start + 1, end - 1) == names[i]
    &&& text[end - 1] == '"'
    &&& i + 1 < names.len() ==> end + 2 <= text.len() && text[end] == ',' && text[end + 1] == ' '
}

proof fn lemma_name_start_of_prefix(names: Seq<Seq<char>>, i: int)
    requires
        0 <= i < names.len(),
    ensures
        name_start(names, i) == name_start(names.drop_last(), i),
        0 <= name_start(names, i),
    decreases i,
{
    if i > 0 {
        lemma_name_start_of_prefix(names, i - 1);
        assert(names.drop_last()[i - 1] == names[i - 1]);
    }
}

proof fn lemma_quoted_list(names: Seq<Seq<char>>)
    ensures
        names.len() == 0 ==> quoted_list(names).len() == 0,
        names.len() > 0 ==> quoted_list(names).len() == name_start(names, names.len() as int) - 2,
        forall|i: int| 0 <= i < names.len() ==> #[trigger] name_stands(quoted_list(names), names, i),
    decreases names.len(),
{
    reveal_strlit("\"");
    reveal_strlit(", ");
    let text = quoted_list(names);
    let n = names.len() as int;
    if n == 1 {
        assert(name_start(names, 0) == 0);
        assert(text.subrange(1, text.len() - 1) =~= names[0]);
    } else if n > 1 {
        let front = names.drop_last();
        let before = quoted_list(front);
        lemma_quoted_list(front);
        lemma_name_start_of_prefix(names, n - 1);
        assert(text == before + ", "@ + quoted(names.last()));
        assert forall|i: int| 0 <= i < n implies #[trigger] name_stands(text, names, i) by {
            lemma_name_start_of_prefix(names, i);
            let start = name_start(names, i);
            let end = start + names[i].len() + 2;
            if i < n - 1 {
                assert(name_stands(before, front, i));
                assert(front[i] == names[i]);
                assert(text.subrange(start + 1, end - 1) =~= before.subrange(start + 1, end - 1));
                if i + 1 == n - 1 {
                    assert(name_start(names, n - 1) == end + 2);
                    assert(text[end] == ", "@[0] && text[end + 1] == ", "@[1]);
                }
            } else {
                assert(start == before.len() + 2);
                assert(text.subrange(start + 1, end - 1) =~= names[i]);
            }
        }
    }
}

/// Every configured property is selected: the names stand in the list in their order,
/// each in quotes, with a comma and a space between one and the next and nothing else.
/// Where none are configured, all are selected.
pub proof fn lemma_every_property_is_selected(layer: LayerConfig)
    ensures
        match layer.properties {
            Some(list) => {
                let names = texts(list@);
                &&& names.len() == list@.len()
                &&& forall|i: int| 0 <= i < list@.len() ==> names[i] == (#[trigger] list@[i])@
                &&& forall|i: int|
                    0 <= i < list@.len() ==> #[trigger] name_stands(
                        selected_properties(layer),
                        names,
                        i,
                    )
                &&& selected_properties(layer).len() == if list@.len() == 0 {
                    0
                } else {
                    name_start(names, list@.len() as int) - 2
                }
            },
            None => selected_properties(layer) == "*"@,
        },
{
    if let Some(list) = layer.properties {
        lemma_quoted_list(texts(list@));
    }
}

/// What a name is in a query: between two quotes.
pub proof fn lemma_names_are_quoted(name: Seq<char>)
    ensures
        quoted(name).len() == name.len() + 2,
        quoted(name)[0] == '"',
        quoted(name).last() == '"',
        quoted(name).subrange(1, name.len() as int + 1) == name,
{
    reveal_strlit("\"");
    assert(quoted(name).subrange(1, name.len() as int + 1) =~= name);
}

/// The query for the features of a layer asks for the number, the geometry or what is
/// derived from it, and the properties.
pub proof fn lemma_query_asks_for_features(layer: LayerConfig, derived: Option<DerivedGeomType>)
    ensures
        has_part(select_features(layer, derived), selected_properties(layer)),
        has_part(
            select_features(layer, derived),
            "SELECT "@ + quoted(layer.id_name()) + " as feature_id"@,
        ),
        has_part(
            select_features(layer, derived),
            "ST_AsGeoJSON(ST_Transform("@ + (match derived {
                None => quoted(layer.geometry_name()),
                Some(DerivedGeomType::LabelPoint) => "ST_PointOnSurface("@ + quoted(
                    layer.geometry_name(),
                ) + ")"@,
                Some(DerivedGeomType::BoundaryLine) => "ST_Boundary("@ + quoted(
                    layer.geometry_name(),
                ) + ")"@,
            }) + ", 4326))"@,
        ),
        layer.id_column matches Some(column) ==> layer.id_name() == column@,
        layer.id_column is None ==> layer.id_name() == "id"@,
        layer.geometry_column matches Some(column) ==> layer.geometry_name() == column@,
        layer.geometry_column is None ==> layer.geometry_name() == "geom"@,
        layer.schema matches Some(schema) ==> layer.schema_name() == schema@,
        layer.schema is None ==> layer.schema_name() == "public"@,
{
    let text = select_features(layer, derived);
    let id = quoted(layer.id_name());
    let shape = geometry_expression(layer, derived);
    let list = selected_properties(layer);
    let start = "SELECT "@ + id;
    let middle = ", 4326))::json as geometry, row_to_json((SELECT r FROM (SELECT "@;
    let end = ") r)) as properties"@;
    lemma_has_part(
        start + " as feature_id, ST_AsGeoJSON(ST_Transform("@ + shape + middle,
        list,
        end,
    );
    reveal_strlit(" as feature_id, ST_AsGeoJSON(ST_Transform(");
    reveal_strlit(" as feature_id");
    reveal_strlit(", ");
    reveal_strlit("ST_AsGeoJSON(ST_Transform(");
    reveal_strlit(", 4326))::json as geometry, row_to_json((SELECT r FROM (SELECT ");
    reveal_strlit(", 4326))");
    reveal_strlit("::json as geometry, row_to_json((SELECT r FROM (SELECT ");
    assert(" as feature_id, ST_AsGeoJSON(ST_Transform("@ =~= " as feature_id"@ + ", "@
        + "ST_AsGeoJSON(ST_Transform("@);
    assert(middle =~= ", 4326))"@
        + "::json as geometry, row_to_json((SELECT r FROM (SELECT "@);
    let first = start + " as feature_id"@;
    let rest = ", "@ + "ST_AsGeoJSON(ST_Transform("@ + shape + middle + list + end;
    assert(text =~= Seq::<char>::empty() + first + rest);
    lemma_has_part(Seq::empty(), first, rest);
    let part = "ST_AsGeoJSON(ST_Transform("@ + shape + ", 4326))"@;
    let behind = "::json as geometry, row_to_json((SELECT r FROM (SELECT "@ + list + end;
    assert(text =~= first + ", "@ + part + behind);
    lemma_has_part(first + ", "@, part, behind);
}

/// A configured filter restricts every query: it stands in brackets at the end,
/// behind `AND`. Without one nothing is added.
pub proof fn lemma_filter_restricts(layer: LayerConfig, query: Seq<char>)
    ensures
        match layer.filter {
            Some(filter) => {
                &&& (query + and_filter(layer)).len() == query.len() + filter@.len() + 7
                &&& (query + and_filter(layer)).subrange(query.len() as int, query.len() as int + 6)
                    == " AND ("@
                &&& (query + and_filter(layer)).subrange(
                    query.len() as int + 6,
                    query.len() as int + 6 + filter@.len(),
                ) == filter@
                &&& (query + and_filter(layer)).last() == ')'
            },
            None => query + and_filter(layer) == query,
        },
{
    reveal_strlit(" AND (");
    reveal_strlit(")");
    let all = query + and_filter(layer);
    let n = query.len() as int;
    match layer.filter {
        Some(filter) => {
            assert(all.subrange(n, n + 6) =~= " AND ("@);
            assert(all.subrange(n + 6, n + 6 + filter@.len()) =~= filter@);
        },
        None => {
            assert(all =~= query);
        },
    }
}

/// A query reads the layer's table in its schema.
pub proof fn lemma_query_reads_the_table(layer: LayerConfig)
    ensures
        has_part(
            from_table(layer),
            " FROM "@ + quoted(layer.schema_name()) + "."@ + quoted(layer.table@),
        ),
        from_table(layer).len() == 7 + quoted(layer.schema_name()).len() + quoted(
            layer.table@,
        ).len(),
{
    reveal_strlit(" FROM ");
    reveal_strlit(".");
    let text = from_table(layer);
    assert(text =~= Seq::<char>::empty() + text + Seq::<char>::empty());
    lemma_has_part(Seq::empty(), text, Seq::empty());
}

/// The edges of a bounding box are asked for by function and by name, of the layer's
/// geometry in degrees.
pub proof fn lemma_edge_is_asked_for(layer: LayerConfig, function: Seq<char>, name: Seq<char>)
    ensures
        has_part(
            box_edge(layer, function, name),
            function + "(ST_Transform(ST_Envelope("@ + quoted(layer.geometry_name())
                + "), 4326)) as "@ + name,
        ),
        box_edge(layer, function, name)[0] == ',',
{
    reveal_strlit(", ");
    let part = function + "(ST_Transform(ST_Envelope("@ + quoted(layer.geometry_name())
        + "), 4326)) as "@ + name;
    assert(box_edge(layer, function, name) =~= ", "@ + part + Seq::<char>::empty());
    lemma_has_part(", "@, part, Seq::empty());
}

/// How many properties are configured.
pub open spec fn property_count(layer: LayerConfig) -> int {
    match layer.properties {
        Some(names) => names@.len() as int,
        None => 0,
    }
}

/// Everything that a layer needs is checked, in order: its table first, then every
/// geometry column, its number column, every configured property, and its trigger
/// last.
pub proof fn lemma_everything_is_checked(layer: LayerConfig)
    ensures
        ({
            let checks = checks_of(layer);
            let columns = layer.geometry_column_names();
            let n = columns.len() as int;
            &&& checks.len() == 3 + n + property_count(layer)
            &&& checks[0].0 == CheckKind::Table
            &&& forall|i: int|
                0 <= i < n ==> checks[1 + i] == (CheckKind::GeometryColumn, #[trigger] columns[i])
            &&& checks[1 + n] == (CheckKind::IdColumn, layer.id_name())
            &&& layer.properties matches Some(names) ==> forall|i: int|
                0 <= i < names@.len() ==> checks[2 + n + i] == (
                    CheckKind::PropertyColumn,
                    (#[trigger] names@[i])@,
                )
            &&& checks.last().0 == CheckKind::Trigger
        }),
{
}

/// Every check that has failed is reported, in its words; a missing table alone, and
/// without one each of the others, as many as have failed.
pub proof fn lemma_every_failed_check_is_reported(layer: LayerConfig, answers: Seq<bool>, k: int)
    requires
        answers.len() == checks_of(layer).len(),
        0 <= k < answers.len(),
        !answers[k],
    ensures
        !answers[0] ==> issues_of(layer, answers).len() == 1 && issues_of(layer, answers)[0]
            == issue_of(layer, checks_of(layer)[0]),
        answers[0] ==> issues_of(layer, answers).contains(issue_of(layer, checks_of(layer)[k])),
        answers[0] ==> issues_of(layer, answers).len() == failed_count(answers),
{
    if answers[0] {
        let n = checks_of(layer).len();
        lemma_failure_is_listed(layer, checks_of(layer), answers, n, k);
        lemma_failures_counted(layer, checks_of(layer), answers, n);
        assert(answers.take(n as int) =~= answers);
        assert(answers.take(0) =~= Seq::<bool>::empty());
    }
}

/// How many answers are no.
pub open spec fn failed_count(answers: Seq<bool>) -> nat
    decreases answers.len(),
{
    if answers.len() == 0 {
        0
    } else {
        failed_count(answers.drop_last()) + if answers.last() {
            0nat
        } else {
            1nat
        }
    }
}

proof fn lemma_failures_counted(
    layer: LayerConfig,
    checks: Seq<CheckModel>,
    answers: Seq<bool>,
    n: nat,
)
    requires
        0 < n <= answers.len(),
        answers[0],
    ensures
        failures(layer, checks, answers, n).len() == failed_count(answers.take(n as int)),
    decreases n,
{
    let some = answers.take(n as int);
    assert(some.drop_last() =~= answers.take(n - 1));
    assert(some.last() == answers[n - 1]);
    if n > 1 {
        lemma_failures_counted(layer, checks, answers, (n - 1) as nat);
    } else {
        assert(failed_count(answers.take(0)) == 0);
    }
}

proof fn lemma_failure_is_listed(
    layer: LayerConfig,
    checks: Seq<CheckModel>,
    answers: Seq<bool>,
    n: nat,
    k: int,
)
    requires
        1 <= k < n,
        !answers[k],
    ensures
        failures(layer, checks, answers, n).contains(issue_of(layer, checks[k])),
    decreases n,
{
    let all = failures(layer, checks, answers, n);
    let front = failures(layer, checks, answers, (n - 1) as nat);
    let said = issue_of(layer, checks[k]);
    if k < n - 1 {
        lemma_failure_is_listed(layer, checks, answers, (n - 1) as nat, k);
        let i = choose|i: int| 0 <= i < front.len() && front[i] == said;
        assert(all[i] == said);
    } else {
        assert(all[front.len() as int] == said);
    }
}

/// An issue names the layer's table, and the column where it is about one.
pub proof fn lemma_issue_names_what_is_missing(layer: LayerConfig, check: CheckModel)
    ensures
        has_part(
            issue_of(layer, check),
            quoted(layer.schema_name()) + "."@ + quoted(layer.table@),
        ),
        !(check.0 is Table) && !(check.0 is Trigger) ==> has_part(
            issue_of(layer, check),
            quoted(check.1),
        ),
{
    let table = quoted(layer.schema_name()) + "."@ + quoted(layer.table@);
    let none = Seq::<char>::empty();
    match check.0 {
        CheckKind::Table => {
            lemma_has_part("Table "@, table, " does not exist"@);
        },
        CheckKind::Trigger => {
            lemma_has_part("No tile_update trigger found on "@, table, none);
            assert("No tile_update trigger found on "@ + table + none =~= issue_of(layer, check));
        },
        CheckKind::GeometryColumn => {
            lemma_column_issue("Geometry column "@, quoted(check.1), table);
        },
        CheckKind::IdColumn => {
            lemma_column_issue("ID column "@, quoted(check.1), table);
        },
        CheckKind::PropertyColumn => {
            lemma_column_issue("Property column "@, quoted(check.1), table);
        },
    }
}

proof fn lemma_column_issue(what: Seq<char>, column: Seq<char>, table: Seq<char>)
    ensures
        has_part(what + column + " does not exist in "@ + table, column),
        has_part(what + column + " does not exist in "@ + table, table),
{
    let none = Seq::<char>::empty();
    let text = what + column + " does not exist in "@ + table;
    lemma_has_part(what, column, " does not exist in "@ + table);
    assert(what + column + (" does not exist in "@ + table) =~= text);
    lemma_has_part(what + column + " does not exist in "@, table, none);
    assert(what + column + " does not exist in "@ + table + none =~= text);
}

/// A row is exported as a GeoJSON feature with its number, its geometry and its
/// properties, and every row is.
pub proof fn lemma_every_row_is_exported(features: Seq<(i64, Value, Value)>, i: int)
    requires
        0 <= i < features.len(),
    ensures
        geojson_features(features).len() == features.len(),
        ({
            let json = geojson_features(features)[i];
            &&& field(json, "type"@) == Some(Json::Text("Feature"@))
            &&& field(json, "id"@) == Some(Json::Number(signed_decimal(features[i].0 as int)))
            &&& field(json, "geometry"@) == Some(json_of(features[i].1))
            &&& field(json, "properties"@) == Some(json_of(features[i].2))
        }),
        collected(collection_fields(geojson_features(features)))["type"@] == Json::Text(
            "FeatureCollection"@,
        ),
        collected(collection_fields(geojson_features(features)))["features"@] == Json::Array(
            geojson_features(features),
        ),
{
    reveal_strlit("type");
    reveal_strlit("id");
    reveal_strlit("geometry");
    reveal_strlit("properties");
    reveal_strlit("features");
    assert("type"@.len() == 4 && "id"@.len() == 2 && "geometry"@.len() == 8 && "properties"@.len()
        == 10 && "features"@.len() == 8);
    let fields = geojson_features(features)[i]->Object_0;
    reveal_with_fuel(field_in, 5);
    assert(fields.len() == 4);
    assert(fields.drop_last().last() == fields[2]);
    assert(fields.drop_last().drop_last().last() == fields[1]);
    assert(fields.drop_last().drop_last().drop_last().last() == fields[0]);
    reveal_with_fuel(collected, 3);
    let whole = collection_fields(geojson_features(features));
    assert(whole.drop_last().last() == whole[0]);
}

/// Checks are taken one for one, and are all that stands in them.
pub proof fn lemma_checks_one_for_one(checks: Seq<LayerCheck>)
    ensures
        check_models(checks).len() == checks.len(),
        forall|i: int|
            0 <= i < checks.len() ==> #[trigger] check_models(checks)[i] == (
                checks[i].kind,
                checks[i].column@,
            ),
{
}

} // verus!
