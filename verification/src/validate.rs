//! Reporting how a configuration fits the database.
use crate::config::{AppConfig, LayerConfig, SourceConfig};
use crate::text::{decimal, decimal_text, has_part, joined, lemma_has_part, lemma_is_suffix, texts};
use vstd::prelude::*;

verus! {

/// What the check of a layer found.
#[derive(Debug)]
pub enum LayerFinding {
    /// The issues, none where all is in order.
    Checked(Vec<String>),
    /// The layer could not be checked, and why.
    Failed(String),
}

/// What the check of a source found.
#[derive(Debug)]
pub struct SourceFinding {
    /// The directory of the store, where it does not exist.
    pub missing_parent: Option<String>,
    /// One for each layer.
    pub layers: Vec<LayerFinding>,
}

/// A layer is in order.
pub open spec fn layer_valid(finding: LayerFinding) -> bool {
    match finding {
        LayerFinding::Checked(issues) => issues@.len() == 0,
        LayerFinding::Failed(_) => false,
    }
}

/// A source is in order.
pub open spec fn source_valid(finding: SourceFinding) -> bool {
    &&& finding.missing_parent is None
    &&& forall|i: int|
        0 <= i < finding.layers@.len() ==> layer_valid(#[trigger] finding.layers@[i])
}

/// Lines with a prefix.
pub open spec fn prefixed(prefix: Seq<char>, lines: Seq<Seq<char>>) -> Seq<Seq<char>> {
    Seq::new(lines.len(), |i: int| prefix + lines[i])
}

/// The lines on what was found.
pub open spec fn finding_lines(finding: LayerFinding) -> Seq<Seq<char>> {
    match finding {
        LayerFinding::Checked(issues) => if issues@.len() == 0 {
            seq!["    OK"@]
        } else {
            prefixed("    ISSUE: "@, texts(issues@))
        },
        LayerFinding::Failed(why) => seq!["    ERROR: Failed to validate: "@ + why@],
    }
}

/// The line on a missing directory.
pub open spec fn warning_lines(missing_parent: Option<String>) -> Seq<Seq<char>> {
    match missing_parent {
        Some(path) => seq!["  WARNING: MBTiles parent directory does not exist: "@ + path@],
        None => Seq::empty(),
    }
}

/// The lines on a layer.
pub open spec fn layer_lines(layer: LayerConfig, finding: LayerFinding) -> Seq<Seq<char>> {
    seq![
        "  Layer: "@ + layer.name@ + " (table: "@ + layer.schema_name() + "."@ + layer.table@
            + ")"@,
    ] + finding_lines(finding) + (match layer.filter {
        Some(filter) => seq!["    Filter: "@ + filter@],
        None => Seq::empty(),
    })
}

/// The lines on the first `n` layers.
pub open spec fn layers_lines(
    layers: Seq<LayerConfig>,
    findings: Seq<LayerFinding>,
    n: nat,
) -> Seq<Seq<char>>
    decreases n,
{
    if n == 0 {
        Seq::empty()
    } else {
        layers_lines(layers, findings, (n - 1) as nat) + layer_lines(layers[n - 1], findings[n - 1])
    }
}

/// The lines on a source.
pub open spec fn source_lines(source: SourceConfig, finding: SourceFinding) -> Seq<Seq<char>> {
    seq![
        "Source: "@ + source.name@,
        "  MBTiles path: "@ + source.mbtiles_path@,
        "  Zoom range: "@ + decimal(source.min_zoom as nat) + " - "@ + decimal(
            source.max_zoom as nat,
        ),
    ] + warning_lines(finding.missing_parent) + layers_lines(source.layers@, finding.layers@, source.layers@.len()) + seq![Seq::empty()]
}

/// The lines on the first `n` sources.
pub open spec fn sources_lines(
    sources: Seq<SourceConfig>,
    findings: Seq<SourceFinding>,
    n: nat,
) -> Seq<Seq<char>>
    decreases n,
{
    if n == 0 {
        Seq::empty()
    } else {
        sources_lines(sources, findings, (n - 1) as nat) + source_lines(
            sources[n - 1],
            findings[n - 1],
        )
    }
}

/// There is a finding for each source, and in it one for each layer.
pub open spec fn complete(sources: Seq<SourceConfig>, findings: Seq<SourceFinding>) -> bool {
    &&& findings.len() == sources.len()
    &&& forall|i: int|
        0 <= i < sources.len() ==> (#[trigger] findings[i]).layers@.len()
            == sources[i].layers@.len()
}

fn push_layer(lines: &mut Vec<String>, layer: &LayerConfig, finding: &LayerFinding) -> (valid: bool)
    ensures
        texts(final(lines)@) == texts(old(lines)@) + layer_lines(*layer, *finding),
        valid == layer_valid(*finding),
{
    let ghost before = texts(lines@);
    let schema: &str = match &layer.schema {
        Some(schema) => schema.as_str(),
        None => "public",
    };
    let mut head: String = joined("  Layer: ", layer.name.as_str());
    head.append(" (table: ");
    head.append(schema);
    head.append(".");
    head.append(layer.table.as_str());
    head.append(")");
    let ghost headed = head@;
    lines.push(head);
    assert(texts(lines@) =~= before + seq![headed]);
    let ghost led = before + seq![headed];
    let mut valid: bool = false;
    let ghost result = finding_lines(*finding);
    match finding {
        LayerFinding::Checked(issues) => {
            if issues.len() == 0 {
                valid = true;
                lines.push("    OK".to_owned());
            } else {
                assert(led + result.take(0) =~= led);
                for i in 0..issues.len()
                    invariant
                        result == prefixed("    ISSUE: "@, texts(issues@)),
                        texts(lines@) == led + result.take(i as int),
                {
                    let ghost held = lines@;
                    lines.push(joined("    ISSUE: ", issues[i].as_str()));
                    assert(texts(lines@) =~= texts(held).push(result[i as int]));
                    assert(texts(lines@) =~= led + result.take(i as int + 1));
                }
                assert(result.take(result.len() as int) =~= result);
            }
        },
        LayerFinding::Failed(why) => {
            lines.push(joined("    ERROR: Failed to validate: ", why.as_str()));
        },
    }
    assert(texts(lines@) =~= led + result);
    let ghost found = texts(lines@);
    match &layer.filter {
        Some(filter) => {
            lines.push(joined("    Filter: ", filter.as_str()));
            assert(texts(lines@) =~= found + seq!["    Filter: "@ + filter@]);
        },
        None => {
            assert(found + Seq::<Seq<char>>::empty() =~= found);
        },
    }
    assert(texts(lines@) =~= before + layer_lines(*layer, *finding));
    valid
}

fn push_source(lines: &mut Vec<String>, source: &SourceConfig, finding: &SourceFinding) -> (valid:
    bool)
    requires
        finding.layers@.len() == source.layers@.len(),
    ensures
        texts(final(lines)@) == texts(old(lines)@) + source_lines(*source, *finding),
        valid == source_valid(*finding),
{
    let ghost before = texts(lines@);
    lines.push(joined("Source: ", source.name.as_str()));
    lines.push(joined("  MBTiles path: ", source.mbtiles_path.as_str()));
    let mut range: String = joined(
        "  Zoom range: ",
        decimal_text(source.min_zoom as u64).as_str(),
    );
    range.append(" - ");
    range.append(decimal_text(source.max_zoom as u64).as_str());
    let ghost ranged = range@;
    lines.push(range);
    let ghost head = seq![
        "Source: "@ + source.name@,
        "  MBTiles path: "@ + source.mbtiles_path@,
        ranged,
    ];
    assert(texts(lines@) =~= before + head);
    let mut valid: bool = true;
    let ghost warning = warning_lines(finding.missing_parent);
    match &finding.missing_parent {
        Some(path) => {
            valid = false;
            lines.push(
                joined("  WARNING: MBTiles parent directory does not exist: ", path.as_str()),
            );
        },
        None => {},
    }
    let ghost led = before + (head + warning);
    assert(texts(lines@) =~= led);
    assert(led + layers_lines(source.layers@, finding.layers@, 0) =~= led);
    for i in 0..source.layers.len()
        invariant
            finding.layers@.len() == source.layers@.len(),
            texts(lines@) == led + layers_lines(source.layers@, finding.layers@, i as nat),
            valid == (finding.missing_parent is None && forall|k: int|
                0 <= k < i ==> layer_valid(#[trigger] finding.layers@[k])),
    {
        if !push_layer(lines, &source.layers[i], &finding.layers[i]) {
            valid = false;
            assert(!layer_valid(finding.layers@[i as int]));
        }
        assert(texts(lines@) =~= led + layers_lines(
            source.layers@,
            finding.layers@,
            i as nat + 1,
        ));
    }
    let ghost done = texts(lines@);
    lines.push(String::new());
    assert(texts(lines@) =~= done + seq![Seq::<char>::empty()]);
    assert(texts(lines@) =~= before + source_lines(*source, *finding));
    valid
}

/// The report on a configuration, and whether all is in order.
pub fn validation_report(config: &AppConfig, findings: &Vec<SourceFinding>) -> (report: (
    Vec<String>,
    bool,
))
    requires
        complete(config.sources@, findings@),
    ensures
        report.1 == forall|i: int|
            0 <= i < findings@.len() ==> source_valid(#[trigger] findings@[i]),
        texts(report.0@) == sources_lines(
            config.sources@,
            findings@,
            config.sources@.len(),
        ).push(
            if report.1 {
                "All validations passed."@
            } else {
                "Some validations failed. See issues above."@
            },
        ),
{
    let mut lines: Vec<String> = Vec::new();
    let mut valid: bool = true;
    assert(texts(lines@) =~= sources_lines(config.sources@, findings@, 0));
    for i in 0..config.sources.len()
        invariant
            complete(config.sources@, findings@),
            texts(lines@) == sources_lines(config.sources@, findings@, i as nat),
            valid == forall|k: int| 0 <= k < i ==> source_valid(#[trigger] findings@[k]),
    {
        assert(findings@[i as int].layers@.len() == config.sources@[i as int].layers@.len());
        if !push_source(&mut lines, &config.sources[i], &findings[i]) {
            valid = false;
            assert(!source_valid(findings@[i as int]));
        }
    }
    let ghost held = lines@;
    let verdict: String = if valid {
        "All validations passed.".to_owned()
    } else {
        "Some validations failed. See issues above.".to_owned()
    };
    let ghost text = verdict@;
    lines.push(verdict);
    assert(texts(lines@) =~= texts(held).push(text));
    (lines, valid)
}

/// A source is in order where its directory is there and every layer was checked
/// without an issue.
pub proof fn lemma_one_issue_is_enough(finding: SourceFinding)
    ensures
        source_valid(finding) <==> finding.missing_parent is None && forall|i: int|
            0 <= i < finding.layers@.len() ==> match (#[trigger] finding.layers@[i]) {
                LayerFinding::Checked(issues) => issues@.len() == 0,
                LayerFinding::Failed(_) => false,
            },
{
    if forall|i: int|
        0 <= i < finding.layers@.len() ==> match (#[trigger] finding.layers@[i]) {
            LayerFinding::Checked(issues) => issues@.len() == 0,
            LayerFinding::Failed(_) => false,
        } {
        assert forall|i: int| 0 <= i < finding.layers@.len() implies layer_valid(
            #[trigger] finding.layers@[i],
        ) by {}
    }
    if source_valid(finding) {
        assert forall|i: int| 0 <= i < finding.layers@.len() implies match (
        #[trigger] finding.layers@[i]) {
            LayerFinding::Checked(issues) => issues@.len() == 0,
            LayerFinding::Failed(_) => false,
        } by {
            assert(layer_valid(finding.layers@[i]));
        }
    }
}

/// The lines on a layer name it and its table, give every issue a line of its own,
/// in order, say why a check failed, and end in the filter where there is one.
pub proof fn lemma_layer_is_told_everything(layer: LayerConfig, finding: LayerFinding)
    ensures
        ({
            let lines = layer_lines(layer, finding);
            let filters = if layer.filter is Some {
                1int
            } else {
                0
            };
            &&& has_part(lines[0], layer.name@)
            &&& has_part(lines[0], layer.schema_name() + "."@ + layer.table@)
            &&& layer.filter is Some ==> layer.filter->0@.is_suffix_of(lines.last())
            &&& match finding {
                LayerFinding::Checked(issues) => if issues@.len() == 0 {
                    lines.len() == 2 + filters && lines[1] == "    OK"@
                } else {
                    &&& lines.len() == 1 + issues@.len() + filters
                    &&& forall|i: int|
                        0 <= i < issues@.len() ==> (#[trigger] issues@[i])@.is_suffix_of(lines[1 + i])
                            && lines[1 + i].len() == issues@[i]@.len() + 11
                },
                LayerFinding::Failed(why) => lines.len() == 2 + filters && why@.is_suffix_of(
                    lines[1],
                ),
            }
        }),
{
    let lines = layer_lines(layer, finding);
    let place = layer.schema_name() + "."@ + layer.table@;
    let head = lines[0];
    lemma_has_part("  Layer: "@, layer.name@, " (table: "@ + place + ")"@);
    assert("  Layer: "@ + layer.name@ + (" (table: "@ + place + ")"@) =~= head);
    lemma_has_part("  Layer: "@ + layer.name@ + " (table: "@, place, ")"@);
    assert("  Layer: "@ + layer.name@ + " (table: "@ + place + ")"@ =~= head);
    if layer.filter is Some {
        lemma_is_suffix("    Filter: "@, layer.filter->0@);
    }
    match finding {
        LayerFinding::Checked(issues) => {
            reveal_strlit("    ISSUE: ");
            if issues@.len() > 0 {
                assert forall|i: int| 0 <= i < issues@.len() implies (
                #[trigger] issues@[i])@.is_suffix_of(lines[1 + i]) && lines[1 + i].len()
                    == issues@[i]@.len() + 11 by {
                    assert(lines[1 + i] == "    ISSUE: "@ + texts(issues@)[i]);
                    lemma_is_suffix("    ISSUE: "@, issues@[i]@);
                }
            }
        },
        LayerFinding::Failed(why) => {
            lemma_is_suffix("    ERROR: Failed to validate: "@, why@);
        },
    }
}

/// Each layer's lines stand in the report, directly behind those of the layers
/// before it.
pub proof fn lemma_layers_follow_each_other(
    layers: Seq<LayerConfig>,
    findings: Seq<LayerFinding>,
    i: nat,
    n: nat,
)
    requires
        i < n,
    ensures
        layers_lines(layers, findings, 0).len() == 0,
        layers_lines(layers, findings, i + 1).len() == layers_lines(layers, findings, i).len()
            + layer_lines(layers[i as int], findings[i as int]).len(),
        layers_lines(layers, findings, i + 1).len() <= layers_lines(layers, findings, n).len(),
        layers_lines(layers, findings, n).subrange(
            layers_lines(layers, findings, i).len() as int,
            layers_lines(layers, findings, i + 1).len() as int,
        ) == layer_lines(layers[i as int], findings[i as int]),
    decreases n,
{
    let before = layers_lines(layers, findings, i).len() as int;
    let behind = layers_lines(layers, findings, i + 1).len() as int;
    let all = layers_lines(layers, findings, n);
    let one = layer_lines(layers[i as int], findings[i as int]);
    if i + 1 < n {
        let front = layers_lines(layers, findings, (n - 1) as nat);
        lemma_layers_follow_each_other(layers, findings, i, (n - 1) as nat);
        assert(all.subrange(before, behind) =~= front.subrange(before, behind));
    } else {
        assert(all.subrange(before, behind) =~= one);
    }
}

/// The lines on a source name it, its store and its zoom range, warn of a missing
/// directory, and go on with all of its layers.
pub proof fn lemma_source_is_told_everything(source: SourceConfig, finding: SourceFinding)
    ensures
        ({
            let lines = source_lines(source, finding);
            let layers = layers_lines(source.layers@, finding.layers@, source.layers@.len());
            let head = if finding.missing_parent is Some {
                4int
            } else {
                3
            };
            &&& source.name@.is_suffix_of(lines[0])
            &&& source.mbtiles_path@.is_suffix_of(lines[1])
            &&& has_part(lines[2], decimal(source.min_zoom as nat))
            &&& decimal(source.max_zoom as nat).is_suffix_of(lines[2])
            &&& finding.missing_parent is Some ==> finding.missing_parent->0@.is_suffix_of(lines[3])
            &&& lines.len() == head + layers.len() + 1
            &&& lines.subrange(head, head + layers.len()) == layers
        }),
{
    let lines = source_lines(source, finding);
    let layers = layers_lines(source.layers@, finding.layers@, source.layers@.len());
    let head = if finding.missing_parent is Some {
        4int
    } else {
        3
    };
    lemma_is_suffix("Source: "@, source.name@);
    lemma_is_suffix("  MBTiles path: "@, source.mbtiles_path@);
    let low = decimal(source.min_zoom as nat);
    let high = decimal(source.max_zoom as nat);
    lemma_has_part("  Zoom range: "@, low, " - "@ + high);
    assert("  Zoom range: "@ + low + (" - "@ + high) =~= lines[2]);
    lemma_is_suffix("  Zoom range: "@ + low + " - "@, high);
    if finding.missing_parent is Some {
        lemma_is_suffix(
            "  WARNING: MBTiles parent directory does not exist: "@,
            finding.missing_parent->0@,
        );
    }
    assert(lines.subrange(head, head + layers.len()) =~= layers);
}

/// Each source's lines stand in the report, directly behind those of the sources
/// before it.
pub proof fn lemma_sources_follow_each_other(
    sources: Seq<SourceConfig>,
    findings: Seq<SourceFinding>,
    i: nat,
    n: nat,
)
    requires
        i < n,
    ensures
        sources_lines(sources, findings, 0).len() == 0,
        sources_lines(sources, findings, i + 1).len() == sources_lines(sources, findings, i).len()
            + source_lines(sources[i as int], findings[i as int]).len(),
        sources_lines(sources, findings, i + 1).len() <= sources_lines(sources, findings, n).len(),
        sources_lines(sources, findings, n).subrange(
            sources_lines(sources, findings, i).len() as int,
            sources_lines(sources, findings, i + 1).len() as int,
        ) == source_lines(sources[i as int], findings[i as int]),
    decreases n,
{
    let before = sources_lines(sources, findings, i).len() as int;
    let behind = sources_lines(sources, findings, i + 1).len() as int;
    let all = sources_lines(sources, findings, n);
    let one = source_lines(sources[i as int], findings[i as int]);
    if i + 1 < n {
        let front = sources_lines(sources, findings, (n - 1) as nat);
        lemma_sources_follow_each_other(sources, findings, i, (n - 1) as nat);
        assert(all.subrange(before, behind) =~= front.subrange(before, behind));
    } else {
        assert(all.subrange(before, behind) =~= one);
    }
}

} // verus!
