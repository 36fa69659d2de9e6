//! Full generation: what the generating programs are told, and in which order
//! tiles are built without them.
use crate::config::{GenerationBackend, SourceConfig, TippecanoeConfig};
use crate::pmtiles::export::tiles_across;
use crate::pmtiles::tile_id::{area, side, zoom_base};
use crate::text::{copied, decimal, decimal_text, joined, texts};
use crate::tiles::TileCoord;
use vstd::prelude::*;

verus! {

/// A switch, where it is on.
pub open spec fn switch(on: bool, name: Seq<char>) -> Seq<Seq<char>> {
    if on {
        seq![name]
    } else {
        Seq::empty()
    }
}

/// An option with its value, where it is given.
pub open spec fn option(name: Seq<char>, value: Option<Seq<char>>) -> Seq<Seq<char>> {
    match value {
        Some(value) => seq![name, value],
        None => Seq::empty(),
    }
}

/// A number in decimal, where it is given.
pub open spec fn decimal_option(value: Option<u32>) -> Option<Seq<char>> {
    match value {
        Some(n) => Some(decimal(n as nat)),
        None => None,
    }
}

/// The text of a string, where it is given.
pub open spec fn string_option(value: Option<String>) -> Option<Seq<char>> {
    match value {
        Some(s) => Some(s@),
        None => None,
    }
}

/// A layer's name and the file that holds it.
pub open spec fn named_layers(files: Seq<(String, String)>) -> Seq<Seq<char>>
    decreases files.len(),
{
    if files.len() == 0 {
        Seq::empty()
    } else {
        named_layers(files.drop_last()) + seq![
            "--named-layer"@,
            files.last().0@ + ":"@ + files.last().1@,
        ]
    }
}

/// Arguments with how features are dropped where tiles get too large.
pub open spec fn with_dropping(args: Seq<Seq<char>>, t: TippecanoeConfig) -> Seq<Seq<char>> {
    args + switch(t.no_tile_size_limit != Some(false), "--no-tile-size-limit"@) + switch(
        t.drop_densest_as_needed == Some(true),
        "--drop-densest-as-needed"@,
    ) + switch(t.drop_fraction_as_needed == Some(true), "--drop-fraction-as-needed"@) + switch(
        t.drop_smallest_as_needed == Some(true),
        "--drop-smallest-as-needed"@,
    ) + switch(t.coalesce_densest_as_needed == Some(true), "--coalesce-densest-as-needed"@)
        + switch(
        t.extend_zooms_if_still_dropping == Some(true),
        "--extend-zooms-if-still-dropping"@,
    )
}

/// Arguments with how features are simplified and what limits are lifted.
pub open spec fn with_shaping(args: Seq<Seq<char>>, t: TippecanoeConfig) -> Seq<Seq<char>> {
    args + option("--drop-rate"@, string_option(t.drop_rate)) + option(
        "--base-zoom"@,
        match t.base_zoom {
            Some(z) => Some(decimal(z as nat)),
            None => None,
        },
    ) + option("--simplification"@, string_option(t.simplification)) + switch(
        t.detect_shared_borders == Some(true),
        "--detect-shared-borders"@,
    ) + switch(t.no_tiny_polygon_reduction == Some(true), "--no-tiny-polygon-reduction"@) + switch(
        t.no_feature_limit == Some(true),
        "--no-feature-limit"@,
    ) + switch(t.no_tile_compression == Some(true), "--no-tile-compression"@)
}

/// Arguments with how detailed tiles are, and what is passed on as it is.
pub open spec fn with_detail(args: Seq<Seq<char>>, t: TippecanoeConfig) -> Seq<Seq<char>> {
    args + option("--buffer"@, decimal_option(t.buffer)) + option(
        "--full-detail"@,
        decimal_option(t.full_detail),
    ) + option("--low-detail"@, decimal_option(t.low_detail)) + option(
        "--minimum-detail"@,
        decimal_option(t.minimum_detail),
    ) + (match t.extra_args {
        Some(extra) => texts(extra@),
        None => Seq::empty(),
    })
}

/// The arguments for Tippecanoe.
pub open spec fn tippecanoe_arguments(s: SourceConfig, files: Seq<(String, String)>) -> Seq<
    Seq<char>,
> {
    let head = seq![
        "-o"@,
        s.mbtiles_path@,
        "--force"@,
        "--minimum-zoom"@,
        decimal(s.min_zoom as nat),
        "--maximum-zoom"@,
        decimal(s.max_zoom as nat),
    ];
    with_detail(with_shaping(with_dropping(head, s.tippecanoe), s.tippecanoe), s.tippecanoe)
        + named_layers(files)
}

fn push_switch(args: &mut Vec<String>, on: bool, name: &str)
    ensures
        texts(final(args)@) == texts(old(args)@) + switch(on, name@),
{
    let ghost before = args@;
    if on {
        args.push(name.to_owned());
    }
    assert(texts(args@) =~= texts(before) + switch(on, name@));
}

fn push_option(args: &mut Vec<String>, name: &str, value: Option<String>)
    ensures
        texts(final(args)@) == texts(old(args)@) + option(name@, string_option(value)),
{
    let ghost before = args@;
    let ghost given = string_option(value);
    match value {
        Some(value) => {
            args.push(name.to_owned());
            args.push(value);
        },
        None => {},
    }
    assert(texts(args@) =~= texts(before) + option(name@, given));
}

fn push_number(args: &mut Vec<String>, name: &str, value: Option<u32>)
    ensures
        texts(final(args)@) == texts(old(args)@) + option(name@, decimal_option(value)),
{
    let text: Option<String> = match value {
        Some(n) => Some(decimal_text(n as u64)),
        None => None,
    };
    push_option(args, name, text);
}

fn push_dropping(args: &mut Vec<String>, t: &TippecanoeConfig)
    ensures
        texts(final(args)@) == with_dropping(texts(old(args)@), *t),
{
    push_switch(args, t.no_tile_size_limit.unwrap_or(true), "--no-tile-size-limit");
    push_switch(args, t.drop_densest_as_needed.unwrap_or(false), "--drop-densest-as-needed");
    push_switch(args, t.drop_fraction_as_needed.unwrap_or(false), "--drop-fraction-as-needed");
    push_switch(args, t.drop_smallest_as_needed.unwrap_or(false), "--drop-smallest-as-needed");
    push_switch(
        args,
        t.coalesce_densest_as_needed.unwrap_or(false),
        "--coalesce-densest-as-needed",
    );
    push_switch(
        args,
        t.extend_zooms_if_still_dropping.unwrap_or(false),
        "--extend-zooms-if-still-dropping",
    );
}

fn push_shaping(args: &mut Vec<String>, t: &TippecanoeConfig)
    ensures
        texts(final(args)@) == with_shaping(texts(old(args)@), *t),
{
    push_option(args, "--drop-rate", copied_option(&t.drop_rate));
    let base_zoom: Option<u32> = match t.base_zoom {
        Some(z) => Some(z as u32),
        None => None,
    };
    push_number(args, "--base-zoom", base_zoom);
    push_option(args, "--simplification", copied_option(&t.simplification));
    push_switch(args, t.detect_shared_borders.unwrap_or(false), "--detect-shared-borders");
    push_switch(args, t.no_tiny_polygon_reduction.unwrap_or(false), "--no-tiny-polygon-reduction");
    push_switch(args, t.no_feature_limit.unwrap_or(false), "--no-feature-limit");
    push_switch(args, t.no_tile_compression.unwrap_or(false), "--no-tile-compression");
}

fn push_detail(args: &mut Vec<String>, t: &TippecanoeConfig)
    ensures
        texts(final(args)@) == with_detail(texts(old(args)@), *t),
{
    push_number(args, "--buffer", t.buffer);
    push_number(args, "--full-detail", t.full_detail);
    push_number(args, "--low-detail", t.low_detail);
    push_number(args, "--minimum-detail", t.minimum_detail);
    let ghost led = texts(args@);
    let mut extra: Vec<String> = match &t.extra_args {
        Some(extra) => copied(extra),
        None => Vec::new(),
    };
    let ghost more = extra@;
    assert(t.extra_args is None ==> texts(more) =~= Seq::<Seq<char>>::empty());
    args.append(&mut extra);
    assert(texts(args@) =~= led + texts(more));
}

/// The arguments for Tippecanoe, given the layers' names and files.
pub fn tippecanoe_args(source: &SourceConfig, files: &Vec<(String, String)>) -> (args: Vec<String>)
    ensures
        texts(args@) == tippecanoe_arguments(*source, files@),
{
    let mut args: Vec<String> = Vec::new();
    args.push("-o".to_owned());
    args.push(source.mbtiles_path.clone());
    args.push("--force".to_owned());
    args.push("--minimum-zoom".to_owned());
    args.push(decimal_text(source.min_zoom as u64));
    args.push("--maximum-zoom".to_owned());
    args.push(decimal_text(source.max_zoom as u64));
    assert(texts(args@) =~= seq![
        "-o"@,
        source.mbtiles_path@,
        "--force"@,
        "--minimum-zoom"@,
        decimal(source.min_zoom as nat),
        "--maximum-zoom"@,
        decimal(source.max_zoom as nat),
    ]);
    push_dropping(&mut args, &source.tippecanoe);
    push_shaping(&mut args, &source.tippecanoe);
    push_detail(&mut args, &source.tippecanoe);
    push_layers(&mut args, files);
    args
}

fn push_layers(args: &mut Vec<String>, files: &Vec<(String, String)>)
    ensures
        texts(final(args)@) == texts(old(args)@) + named_layers(files@),
{
    let ghost before = texts(args@);
    assert(files@.take(0) =~= Seq::<(String, String)>::empty());
    assert(before + named_layers(files@.take(0)) =~= before);
    for i in 0..files.len()
        invariant
            texts(args@) == before + named_layers(files@.take(i as int)),
    {
        let ghost held = args@;
        assert(files@.take(i + 1).last() == files@[i as int]);
        assert(files@.take(i + 1).drop_last() =~= files@.take(i as int));
        let mut named: String = joined(files[i].0.as_str(), ":");
        named.append(files[i].1.as_str());
        args.push("--named-layer".to_owned());
        args.push(named);
        assert(texts(args@) =~= texts(held) + seq![
            "--named-layer"@,
            files@[i as int].0@ + ":"@ + files@[i as int].1@,
        ]);
        assert(texts(args@) =~= before + named_layers(files@.take(i as int + 1)));
    }
    assert(files@.take(files@.len() as int) =~= files@);
}

fn copied_option(value: &Option<String>) -> (copy: Option<String>)
    ensures
        string_option(copy) == string_option(*value),
{
    match value {
        Some(s) => Some(s.clone()),
        None => None,
    }
}

/// The arguments for ogr2ogr for one layer. The first layer creates the file,
/// the others are appended to it.
pub open spec fn gdal_arguments(
    s: SourceConfig,
    place: nat,
    layer: Seq<char>,
    path: Seq<char>,
) -> Seq<Seq<char>> {
    seq!["-f"@, "MBTiles"@] + (if place == 0 {
        Seq::empty()
    } else {
        seq!["-update"@, "-append"@]
    }) + seq![
        s.mbtiles_path@,
        path,
        "-nln"@,
        layer,
        "-dsco"@,
        "MINZOOM="@ + decimal(s.min_zoom as nat),
        "-dsco"@,
        "MAXZOOM="@ + decimal(s.max_zoom as nat),
        "-dsco"@,
        "TYPE=overlay"@,
    ]
}

/// The arguments for ogr2ogr for one layer.
pub fn gdal_args(source: &SourceConfig, place: usize, layer: &str, path: &str) -> (args: Vec<
    String,
>)
    ensures
        texts(args@) == gdal_arguments(*source, place as nat, layer@, path@),
{
    let mut args: Vec<String> = Vec::new();
    args.push("-f".to_owned());
    args.push("MBTiles".to_owned());
    if place > 0 {
        args.push("-update".to_owned());
        args.push("-append".to_owned());
    }
    args.push(source.mbtiles_path.clone());
    args.push(path.to_owned());
    args.push("-nln".to_owned());
    args.push(layer.to_owned());
    args.push("-dsco".to_owned());
    args.push(joined("MINZOOM=", decimal_text(source.min_zoom as u64).as_str()));
    args.push("-dsco".to_owned());
    args.push(joined("MAXZOOM=", decimal_text(source.max_zoom as u64).as_str()));
    args.push("-dsco".to_owned());
    args.push("TYPE=overlay".to_owned());
    assert(texts(args@) =~= gdal_arguments(*source, place as nat, layer@, path@));
    args
}

/// Some source is generated by a backend.
pub open spec fn uses(sources: Seq<SourceConfig>, backend: GenerationBackend) -> bool {
    exists|i: int| 0 <= i < sources.len() && (#[trigger] sources[i]).generation_backend == backend
}

/// A program that must be there: the name under which it is known, and the one
/// under which it is called.
#[derive(Debug)]
pub struct RequiredTool {
    pub name: String,
    pub program: String,
}

/// The programs that must be there for the configured sources.
pub open spec fn tools(
    sources: Seq<SourceConfig>,
    tippecanoe_bin: Option<Seq<char>>,
    ogr2ogr_bin: Option<Seq<char>>,
) -> Seq<(Seq<char>, Seq<char>)> {
    (if uses(sources, GenerationBackend::Tippecanoe) {
        seq![("tippecanoe"@, called("tippecanoe"@, tippecanoe_bin))]
    } else {
        Seq::empty()
    }) + (if uses(sources, GenerationBackend::Gdal) {
        seq![("ogr2ogr"@, called("ogr2ogr"@, ogr2ogr_bin))]
    } else {
        Seq::empty()
    })
}

/// The name under which a program is called: the configured path, or its own
/// name.
pub open spec fn called(name: Seq<char>, custom: Option<Seq<char>>) -> Seq<char> {
    match custom {
        Some(path) => path,
        None => name,
    }
}

/// What required programs are.
pub open spec fn tool_models(list: Seq<RequiredTool>) -> Seq<(Seq<char>, Seq<char>)> {
    Seq::new(list.len(), |i: int| (list[i].name@, list[i].program@))
}

/// The text behind an optional reference.
pub open spec fn ref_text(s: Option<&str>) -> Option<Seq<char>> {
    match s {
        Some(s) => Some(s@),
        None => None,
    }
}

fn any_uses(sources: &Vec<SourceConfig>, backend: GenerationBackend) -> (found: bool)
    ensures
        found == uses(sources@, backend),
{
    for i in 0..sources.len()
        invariant
            forall|k: int| 0 <= k < i ==> (#[trigger] sources@[k]).generation_backend != backend,
    {
        if sources[i].generation_backend == backend {
            return true;
        }
    }
    false
}

/// The name under which a program is called.
pub fn program_name(name: &str, custom: Option<&str>) -> (program: String)
    ensures
        program@ == called(name@, ref_text(custom)),
{
    match custom {
        Some(path) => path.to_owned(),
        None => name.to_owned(),
    }
}

/// The programs that must be there for the backends of the configured sources.
pub fn required_tools(
    sources: &Vec<SourceConfig>,
    tippecanoe_bin: Option<&str>,
    ogr2ogr_bin: Option<&str>,
) -> (required: Vec<RequiredTool>)
    ensures
        tool_models(required@) == tools(sources@, ref_text(tippecanoe_bin), ref_text(ogr2ogr_bin)),
{
    let mut required: Vec<RequiredTool> = Vec::new();
    if any_uses(sources, GenerationBackend::Tippecanoe) {
        required.push(
            RequiredTool {
                name: "tippecanoe".to_owned(),
                program: program_name("tippecanoe", tippecanoe_bin),
            },
        );
    }
    if any_uses(sources, GenerationBackend::Gdal) {
        required.push(
            RequiredTool {
                name: "ogr2ogr".to_owned(),
                program: program_name("ogr2ogr", ogr2ogr_bin),
            },
        );
    }
    assert(tool_models(required@) =~= tools(
        sources@,
        ref_text(tippecanoe_bin),
        ref_text(ogr2ogr_bin),
    ));
    required
}

/// What is said where a program is missing.
pub fn missing_tool(tool: &RequiredTool) -> (text: String)
    ensures
        text@ == "'"@ + tool.program@ + "' not found. Is "@ + tool.name@
            + " installed and in PATH?"@,
{
    let mut text: String = joined("'", tool.program.as_str());
    text.append("' not found. Is ");
    text.append(tool.name.as_str());
    text.append(" installed and in PATH?");
    text
}

/// The name of the directory that layers are exported to.
pub fn export_dir_name(source: &str) -> (name: String)
    ensures
        name@ == "tilefeed-export-"@ + source@,
{
    joined("tilefeed-export-", source)
}

/// The name of the file that a layer is exported to.
pub fn geojson_name(layer: &str) -> (name: String)
    ensures
        name@ == layer@ + ".geojson"@,
{
    joined(layer, ".geojson")
}

/// The first tile of a generation without other programs.
pub fn first_tile(source: &SourceConfig) -> (tile: Option<TileCoord>)
    ensures
        tile == (if source.min_zoom <= source.max_zoom {
            Some(TileCoord { z: source.min_zoom, x: 0, y: 0 })
        } else {
            None::<TileCoord>
        }),
{
    if source.min_zoom <= source.max_zoom {
        Some(TileCoord { z: source.min_zoom, x: 0, y: 0 })
    } else {
        None
    }
}

/// The tile that follows another: down its column, then from column to column,
/// then from zoom to zoom.
pub open spec fn following(t: TileCoord, max_zoom: u8) -> Option<TileCoord> {
    let edge = side(t.z as nat);
    if t.y + 1 < edge {
        Some(TileCoord { z: t.z, x: t.x, y: (t.y + 1) as u32 })
    } else if t.x + 1 < edge {
        Some(TileCoord { z: t.z, x: (t.x + 1) as u32, y: 0 })
    } else if t.z < max_zoom {
        Some(TileCoord { z: (t.z + 1) as u8, x: 0, y: 0 })
    } else {
        None
    }
}

/// The tile that follows another in a generation without other programs.
pub fn next_tile(t: TileCoord, max_zoom: u8) -> (next: Option<TileCoord>)
    requires
        t.z <= 31,
        t.in_grid(),
    ensures
        next == following(t, max_zoom),
{
    let edge: u32 = tiles_across(t.z);
    if t.y < edge - 1 {
        Some(TileCoord { z: t.z, x: t.x, y: t.y + 1 })
    } else if t.x < edge - 1 {
        Some(TileCoord { z: t.z, x: t.x + 1, y: 0 })
    } else if t.z < max_zoom {
        Some(TileCoord { z: t.z + 1, x: 0, y: 0 })
    } else {
        None
    }
}

/// The place of a tile in the generation order over all zooms.
pub open spec fn generation_rank(t: TileCoord) -> int {
    zoom_base(t.z as nat) + t.x * side(t.z as nat) + t.y
}

/// Generation visits every tile of its zooms exactly once: from one tile to the
/// next the place in the order grows by one, and it ends with the last tile of
/// the last zoom.
pub proof fn lemma_generation_visits_all(t: TileCoord, max_zoom: u8)
    requires
        t.in_grid(),
        t.z <= max_zoom <= 31,
    ensures
        match following(t, max_zoom) {
            Some(next) => next.in_grid() && next.z <= max_zoom && generation_rank(next)
                == generation_rank(t) + 1,
            None => t.z == max_zoom && generation_rank(t) == zoom_base(max_zoom as nat + 1) - 1,
        },
{
    let edge = side(t.z as nat);
    vstd::arithmetic::power2::lemma_pow2_pos(t.z as nat);
    vstd::arithmetic::power2::lemma_pow2_pos((t.z + 1) as nat);
    vstd::arithmetic::power2::lemma_pow2_adds(t.z as nat, t.z as nat);
    vstd::arithmetic::power2::lemma2_to64();
    if t.z < 31 {
        vstd::arithmetic::power2::lemma_pow2_strictly_increases(t.z as nat, 31);
    }
    assert(area(t.z as nat) == edge * edge);
    assert((t.x + 1) * edge == t.x * edge + edge) by (nonlinear_arith);
    if t.x + 1 == edge {
        assert(t.x * edge + edge == edge * edge);
    }
    let z = t.z as nat;
    assert(zoom_base(z + 1) == zoom_base(z) + area(z));
    assert(0 * side(z + 1) == 0);
    if t.y + 1 == edge && t.x + 1 == edge {
        assert(generation_rank(t) == zoom_base(z + 1) - 1);
    }
}

/// What is said where a generating program fails.
pub fn tippecanoe_failure(source: &str, stderr: &str) -> (text: String)
    ensures
        text@ == "Tippecanoe failed for source '"@ + source@ + "': "@ + stderr@,
{
    let mut text: String = joined("Tippecanoe failed for source '", source);
    text.append("': ");
    text.append(stderr);
    text
}

/// What is said where ogr2ogr fails.
pub fn gdal_failure(layer: &str, source: &str, stderr: &str) -> (text: String)
    ensures
        text@ == "ogr2ogr failed for layer '"@ + layer@ + "' in source '"@ + source@ + "': "@
            + stderr@,
{
    let mut text: String = joined("ogr2ogr failed for layer '", layer);
    text.append("' in source '");
    text.append(source);
    text.append("': ");
    text.append(stderr);
    text
}

/// An argument is directly followed by its value.
pub open spec fn is_given(args: Seq<Seq<char>>, name: Seq<char>, value: Seq<char>) -> bool {
    exists|k: int| 0 <= k < args.len() - 1 && #[trigger] args[k] == name && args[k + 1] == value
}

proof fn lemma_arguments_stay(args: Seq<Seq<char>>, more: Seq<Seq<char>>)
    ensures
        forall|name: Seq<char>|
            args.contains(name) || more.contains(name) ==> #[trigger] (args + more).contains(name),
        forall|name: Seq<char>, value: Seq<char>|
            is_given(args, name, value) || is_given(more, name, value) ==> #[trigger] is_given(
                args + more,
                name,
                value,
            ),
{
    let all = args + more;
    assert forall|name: Seq<char>|
        args.contains(name) || more.contains(name) implies #[trigger] all.contains(name) by {
        if args.contains(name) {
            let k = choose|k: int| 0 <= k < args.len() && args[k] == name;
            assert(all[k] == name);
        } else {
            let k = choose|k: int| 0 <= k < more.len() && more[k] == name;
            assert(all[args.len() + k] == name);
        }
    }
    assert forall|name: Seq<char>, value: Seq<char>|
        is_given(args, name, value) || is_given(more, name, value) implies #[trigger] is_given(
        all,
        name,
        value,
    ) by {
        if is_given(args, name, value) {
            let k = choose|k: int|
                0 <= k < args.len() - 1 && #[trigger] args[k] == name && args[k + 1] == value;
            assert(all[k] == name && all[k + 1] == value);
        } else {
            let k = choose|k: int|
                0 <= k < more.len() - 1 && #[trigger] more[k] == name && more[k + 1] == value;
            assert(all[args.len() + k] == name && all[args.len() + k + 1] == value);
        }
    }
}

proof fn lemma_option_is_given(name: Seq<char>, value: Seq<char>)
    ensures
        is_given(option(name, Some(value)), name, value),
        option(name, None).len() == 0,
        option(name, Some(value)).len() == 2,
        switch(true, name).contains(name),
        switch(true, name).len() == 1,
        switch(false, name).len() == 0,
{
    assert(option(name, Some(value))[0] == name);
    assert(switch(true, name)[0] == name);
}

proof fn lemma_switch_added(args: Seq<Seq<char>>, on: bool, name: Seq<char>)
    ensures
        forall|other: Seq<char>|
            args.contains(other) ==> #[trigger] (args + switch(on, name)).contains(other),
        forall|other: Seq<char>, value: Seq<char>|
            is_given(args, other, value) ==> #[trigger] is_given(
                args + switch(on, name),
                other,
                value,
            ),
        on ==> (args + switch(on, name)).contains(name),
        (args + switch(on, name)).len() == args.len() + one_if(on),
{
    lemma_arguments_stay(args, switch(on, name));
    lemma_option_is_given(name, name);
}

proof fn lemma_option_added(args: Seq<Seq<char>>, name: Seq<char>, value: Option<Seq<char>>)
    ensures
        forall|other: Seq<char>|
            args.contains(other) ==> #[trigger] (args + option(name, value)).contains(other),
        forall|other: Seq<char>, v: Seq<char>|
            is_given(args, other, v) ==> #[trigger] is_given(args + option(name, value), other, v),
        value matches Some(v) ==> is_given(args + option(name, value), name, v),
        (args + option(name, value)).len() == args.len() + 2 * one_if(value is Some),
{
    lemma_arguments_stay(args, option(name, value));
    if let Some(v) = value {
        lemma_option_is_given(name, v);
    }
}

/// One where something is so.
pub open spec fn one_if(b: bool) -> int {
    if b {
        1
    } else {
        0
    }
}

/// What arguments say, longer ones say too.
pub open spec fn says_no_less(args: Seq<Seq<char>>, longer: Seq<Seq<char>>) -> bool {
    &&& args.len() <= longer.len()
    &&& forall|name: Seq<char>| args.contains(name) ==> #[trigger] longer.contains(name)
    &&& forall|name: Seq<char>, value: Seq<char>|
        is_given(args, name, value) ==> #[trigger] is_given(longer, name, value)
}

/// Arguments say how features are dropped: every switch that is on is there.
pub open spec fn says_dropping(args: Seq<Seq<char>>, t: TippecanoeConfig) -> bool {
    &&& t.no_tile_size_limit != Some(false) ==> args.contains("--no-tile-size-limit"@)
    &&& t.drop_densest_as_needed == Some(true) ==> args.contains("--drop-densest-as-needed"@)
    &&& t.drop_fraction_as_needed == Some(true) ==> args.contains("--drop-fraction-as-needed"@)
    &&& t.drop_smallest_as_needed == Some(true) ==> args.contains("--drop-smallest-as-needed"@)
    &&& t.coalesce_densest_as_needed == Some(true) ==> args.contains(
        "--coalesce-densest-as-needed"@,
    )
    &&& t.extend_zooms_if_still_dropping == Some(true) ==> args.contains(
        "--extend-zooms-if-still-dropping"@,
    )
}

/// How many arguments that takes.
pub open spec fn dropping_count(t: TippecanoeConfig) -> int {
    one_if(t.no_tile_size_limit != Some(false)) + one_if(t.drop_densest_as_needed == Some(true))
        + one_if(t.drop_fraction_as_needed == Some(true)) + one_if(
        t.drop_smallest_as_needed == Some(true),
    ) + one_if(t.coalesce_densest_as_needed == Some(true)) + one_if(
        t.extend_zooms_if_still_dropping == Some(true),
    )
}

/// Arguments say how features are simplified and which limits are lifted: every
/// option that is given stands there with its value, and every switch that is on.
pub open spec fn says_shaping(args: Seq<Seq<char>>, t: TippecanoeConfig) -> bool {
    &&& t.drop_rate matches Some(rate) ==> is_given(args, "--drop-rate"@, rate@)
    &&& t.base_zoom matches Some(z) ==> is_given(args, "--base-zoom"@, decimal(z as nat))
    &&& t.simplification matches Some(v) ==> is_given(args, "--simplification"@, v@)
    &&& t.detect_shared_borders == Some(true) ==> args.contains("--detect-shared-borders"@)
    &&& t.no_tiny_polygon_reduction == Some(true) ==> args.contains("--no-tiny-polygon-reduction"@)
    &&& t.no_feature_limit == Some(true) ==> args.contains("--no-feature-limit"@)
    &&& t.no_tile_compression == Some(true) ==> args.contains("--no-tile-compression"@)
}

/// How many arguments that takes.
pub open spec fn shaping_count(t: TippecanoeConfig) -> int {
    2 * one_if(t.drop_rate is Some) + 2 * one_if(t.base_zoom is Some) + 2 * one_if(
        t.simplification is Some,
    ) + one_if(t.detect_shared_borders == Some(true)) + one_if(
        t.no_tiny_polygon_reduction == Some(true),
    ) + one_if(t.no_feature_limit == Some(true)) + one_if(t.no_tile_compression == Some(true))
}

/// Arguments say how detailed tiles are: every option that is given stands there with
/// its value.
pub open spec fn says_detail(args: Seq<Seq<char>>, t: TippecanoeConfig) -> bool {
    &&& t.buffer matches Some(n) ==> is_given(args, "--buffer"@, decimal(n as nat))
    &&& t.full_detail matches Some(n) ==> is_given(args, "--full-detail"@, decimal(n as nat))
    &&& t.low_detail matches Some(n) ==> is_given(args, "--low-detail"@, decimal(n as nat))
    &&& t.minimum_detail matches Some(n) ==> is_given(args, "--minimum-detail"@, decimal(n as nat))
}

/// How many arguments that takes, with the extra ones.
pub open spec fn detail_count(t: TippecanoeConfig) -> int {
    2 * one_if(t.buffer is Some) + 2 * one_if(t.full_detail is Some) + 2 * one_if(
        t.low_detail is Some,
    ) + 2 * one_if(t.minimum_detail is Some) + match t.extra_args {
        Some(extra) => extra@.len() as int,
        None => 0,
    }
}

/// The configured extra arguments stand one by one before place `end`.
pub open spec fn says_extra(args: Seq<Seq<char>>, end: int, t: TippecanoeConfig) -> bool {
    t.extra_args matches Some(extra) ==> forall|i: int|
        0 <= i < extra@.len() ==> args[end - extra@.len() + i] == (#[trigger] extra@[i])@
}

proof fn lemma_dropping_is_said(args: Seq<Seq<char>>, t: TippecanoeConfig)
    ensures
        says_no_less(args, with_dropping(args, t)),
        says_dropping(with_dropping(args, t), t),
        with_dropping(args, t).len() == args.len() + dropping_count(t),
        with_dropping(args, t).take(args.len() as int) == args,
{
    let on1 = t.no_tile_size_limit != Some(false);
    let a1 = args + switch(on1, "--no-tile-size-limit"@);
    lemma_switch_added(args, on1, "--no-tile-size-limit"@);
    let on2 = t.drop_densest_as_needed == Some(true);
    let a2 = a1 + switch(on2, "--drop-densest-as-needed"@);
    lemma_switch_added(a1, on2, "--drop-densest-as-needed"@);
    let on3 = t.drop_fraction_as_needed == Some(true);
    let a3 = a2 + switch(on3, "--drop-fraction-as-needed"@);
    lemma_switch_added(a2, on3, "--drop-fraction-as-needed"@);
    let on4 = t.drop_smallest_as_needed == Some(true);
    let a4 = a3 + switch(on4, "--drop-smallest-as-needed"@);
    lemma_switch_added(a3, on4, "--drop-smallest-as-needed"@);
    let on5 = t.coalesce_densest_as_needed == Some(true);
    let a5 = a4 + switch(on5, "--coalesce-densest-as-needed"@);
    lemma_switch_added(a4, on5, "--coalesce-densest-as-needed"@);
    let on6 = t.extend_zooms_if_still_dropping == Some(true);
    let a6 = a5 + switch(on6, "--extend-zooms-if-still-dropping"@);
    lemma_switch_added(a5, on6, "--extend-zooms-if-still-dropping"@);
    assert(with_dropping(args, t) == a6);
    assert(a6.take(args.len() as int) =~= args);
}

proof fn lemma_shaping_is_said(args: Seq<Seq<char>>, t: TippecanoeConfig)
    ensures
        says_no_less(args, with_shaping(args, t)),
        says_shaping(with_shaping(args, t), t),
        with_shaping(args, t).len() == args.len() + shaping_count(t),
        with_shaping(args, t).take(args.len() as int) == args,
{
    let base = match t.base_zoom {
        Some(z) => Some(decimal(z as nat)),
        None => None,
    };
    let a1 = args + option("--drop-rate"@, string_option(t.drop_rate));
    lemma_option_added(args, "--drop-rate"@, string_option(t.drop_rate));
    let a2 = a1 + option("--base-zoom"@, base);
    lemma_option_added(a1, "--base-zoom"@, base);
    let a3 = a2 + option("--simplification"@, string_option(t.simplification));
    lemma_option_added(a2, "--simplification"@, string_option(t.simplification));
    let on4 = t.detect_shared_borders == Some(true);
    let a4 = a3 + switch(on4, "--detect-shared-borders"@);
    lemma_switch_added(a3, on4, "--detect-shared-borders"@);
    let on5 = t.no_tiny_polygon_reduction == Some(true);
    let a5 = a4 + switch(on5, "--no-tiny-polygon-reduction"@);
    lemma_switch_added(a4, on5, "--no-tiny-polygon-reduction"@);
    let on6 = t.no_feature_limit == Some(true);
    let a6 = a5 + switch(on6, "--no-feature-limit"@);
    lemma_switch_added(a5, on6, "--no-feature-limit"@);
    let on7 = t.no_tile_compression == Some(true);
    let a7 = a6 + switch(on7, "--no-tile-compression"@);
    lemma_switch_added(a6, on7, "--no-tile-compression"@);
    assert(with_shaping(args, t) == a7);
    assert(a7.take(args.len() as int) =~= args);
}

proof fn lemma_detail_is_said(args: Seq<Seq<char>>, t: TippecanoeConfig)
    ensures
        says_no_less(args, with_detail(args, t)),
        says_detail(with_detail(args, t), t),
        says_extra(with_detail(args, t), with_detail(args, t).len() as int, t),
        with_detail(args, t).len() == args.len() + detail_count(t),
        with_detail(args, t).take(args.len() as int) == args,
{
    let a1 = args + option("--buffer"@, decimal_option(t.buffer));
    lemma_option_added(args, "--buffer"@, decimal_option(t.buffer));
    let a2 = a1 + option("--full-detail"@, decimal_option(t.full_detail));
    lemma_option_added(a1, "--full-detail"@, decimal_option(t.full_detail));
    let a3 = a2 + option("--low-detail"@, decimal_option(t.low_detail));
    lemma_option_added(a2, "--low-detail"@, decimal_option(t.low_detail));
    let a4 = a3 + option("--minimum-detail"@, decimal_option(t.minimum_detail));
    lemma_option_added(a3, "--minimum-detail"@, decimal_option(t.minimum_detail));
    let extra = match t.extra_args {
        Some(extra) => texts(extra@),
        None => Seq::empty(),
    };
    lemma_arguments_stay(a4, extra);
    assert(with_detail(args, t) == a4 + extra);
    assert((a4 + extra).take(args.len() as int) =~= args);
}

proof fn lemma_sections_are_said(
    a: Seq<Seq<char>>,
    b: Seq<Seq<char>>,
    c: Seq<Seq<char>>,
    args: Seq<Seq<char>>,
    t: TippecanoeConfig,
)
    requires
        says_no_less(a, b),
        says_no_less(b, c),
        says_no_less(c, args),
        says_dropping(a, t),
        says_shaping(b, t),
        says_detail(c, t),
    ensures
        says_dropping(args, t),
        says_shaping(args, t),
        says_detail(args, t),
{
    assert(says_dropping(b, t));
    assert(says_dropping(c, t));
    assert(says_shaping(c, t));
}

/// Two arguments, from place `k` on, name a layer and its file: `--named-layer`, and
/// the layer's name, a colon and the path of the file.
pub open spec fn names_layer(args: Seq<Seq<char>>, k: int, file: (String, String)) -> bool {
    &&& args[k] == "--named-layer"@
    &&& args[k + 1] == file.0@ + ":"@ + file.1@
}

proof fn lemma_named_layers(files: Seq<(String, String)>)
    ensures
        named_layers(files).len() == 2 * files.len(),
        forall|i: int|
            0 <= i < files.len() ==> names_layer(named_layers(files), 2 * i, #[trigger] files[i]),
    decreases files.len(),
{
    if files.len() > 0 {
        let front = files.drop_last();
        lemma_named_layers(front);
        assert forall|i: int| 0 <= i < files.len() implies names_layer(
            named_layers(files),
            2 * i,
            #[trigger] files[i],
        ) by {
            if i < front.len() {
                assert(names_layer(named_layers(front), 2 * i, front[i]));
            }
        }
    }
}

/// Every layer is generated: the arguments for Tippecanoe end with two for each
/// file, in their order.
pub proof fn lemma_every_layer_is_named(s: SourceConfig, files: Seq<(String, String)>)
    ensures
        tippecanoe_arguments(s, files).len() >= 7 + 2 * files.len(),
        forall|i: int|
            0 <= i < files.len() ==> names_layer(
                tippecanoe_arguments(s, files),
                tippecanoe_arguments(s, files).len() - 2 * files.len() + 2 * i,
                #[trigger] files[i],
            ),
{
    let args = tippecanoe_arguments(s, files);
    let named = named_layers(files);
    let start = args.len() - named.len();
    lemma_named_layers(files);
    lemma_tippecanoe_is_told_everything(s, files);
    assert forall|i: int| 0 <= i < files.len() implies names_layer(
        args,
        start + 2 * i,
        #[trigger] files[i],
    ) by {
        assert(names_layer(named, 2 * i, files[i]));
        assert(args[start + 2 * i] == named[2 * i]);
        assert(args[start + 2 * i + 1] == named[2 * i + 1]);
    }
}

/// Where to write and which zooms to build.
pub open spec fn says_output(args: Seq<Seq<char>>, s: SourceConfig) -> bool {
    &&& args[0] == "-o"@
    &&& args[1] == s.mbtiles_path@
    &&& args[2] == "--force"@
    &&& args[3] == "--minimum-zoom"@
    &&& args[4] == decimal(s.min_zoom as nat)
    &&& args[5] == "--maximum-zoom"@
    &&& args[6] == decimal(s.max_zoom as nat)
}

/// Tippecanoe is told everything that is configured, and nothing else: where to
/// write and which zooms to build, every switch that is on, every option with its
/// value, the extra arguments, and the layers.
pub proof fn lemma_tippecanoe_is_told_everything(s: SourceConfig, files: Seq<(String, String)>)
    ensures
        says_output(tippecanoe_arguments(s, files), s),
        says_dropping(tippecanoe_arguments(s, files), s.tippecanoe),
        says_shaping(tippecanoe_arguments(s, files), s.tippecanoe),
        says_detail(tippecanoe_arguments(s, files), s.tippecanoe),
        says_extra(
            tippecanoe_arguments(s, files),
            tippecanoe_arguments(s, files).len() - 2 * files.len(),
            s.tippecanoe,
        ),
        tippecanoe_arguments(s, files).len() == 7 + dropping_count(s.tippecanoe) + shaping_count(
            s.tippecanoe,
        ) + detail_count(s.tippecanoe) + 2 * files.len(),
{
    let t = s.tippecanoe;
    let head = seq![
        "-o"@,
        s.mbtiles_path@,
        "--force"@,
        "--minimum-zoom"@,
        decimal(s.min_zoom as nat),
        "--maximum-zoom"@,
        decimal(s.max_zoom as nat),
    ];
    lemma_dropping_is_said(head, t);
    lemma_shaping_is_said(with_dropping(head, t), t);
    lemma_detail_is_said(with_shaping(with_dropping(head, t), t), t);
    lemma_named_layers(files);
    lemma_sections_joined(
        head,
        with_dropping(head, t),
        with_shaping(with_dropping(head, t), t),
        with_detail(with_shaping(with_dropping(head, t), t), t),
        named_layers(files),
        t,
    );
}

proof fn lemma_sections_joined(
    head: Seq<Seq<char>>,
    a: Seq<Seq<char>>,
    b: Seq<Seq<char>>,
    c: Seq<Seq<char>>,
    named: Seq<Seq<char>>,
    t: TippecanoeConfig,
)
    requires
        head.len() == 7,
        says_no_less(head, a),
        says_no_less(a, b),
        says_no_less(b, c),
        a.take(head.len() as int) == head,
        b.take(a.len() as int) == a,
        c.take(b.len() as int) == b,
        says_dropping(a, t),
        says_shaping(b, t),
        says_detail(c, t),
        says_extra(c, c.len() as int, t),
        t.extra_args matches Some(extra) ==> extra@.len() <= c.len(),
    ensures
        says_dropping(c + named, t),
        says_shaping(c + named, t),
        says_detail(c + named, t),
        says_extra(c + named, c.len() as int, t),
        forall|i: int| 0 <= i < 7 ==> #[trigger] (c + named)[i] == head[i],
{
    let args = c + named;
    lemma_arguments_stay(c, named);
    assert(says_no_less(c, args));
    lemma_sections_are_said(a, b, c, args, t);
    assert forall|i: int| 0 <= i < 7 implies #[trigger] args[i] == head[i] by {
        assert(c[i] == c.take(b.len() as int)[i]);
        assert(b[i] == b.take(a.len() as int)[i]);
        assert(a[i] == a.take(head.len() as int)[i]);
    }
    if let Some(extra) = t.extra_args {
        assert forall|i: int| 0 <= i < extra@.len() implies args[c.len() - extra@.len() + i] == (
        #[trigger] extra@[i])@ by {
            assert(c[c.len() - extra@.len() + i] == extra@[i]@);
        }
    }
}

/// Each layer is handed to ogr2ogr with its file, its name and the zooms. The first
/// creates the file, and each other one differs only in that it is appended.
pub proof fn lemma_gdal_appends_all_but_the_first(
    s: SourceConfig,
    place: nat,
    layer: Seq<char>,
    path: Seq<char>,
)
    ensures
        ({
            let first = gdal_arguments(s, 0, layer, path);
            let args = gdal_arguments(s, place, layer, path);
            &&& first.len() == 12
            &&& first[0] == "-f"@ && first[1] == "MBTiles"@
            &&& first[2] == s.mbtiles_path@
            &&& first[3] == path
            &&& first[4] == "-nln"@ && first[5] == layer
            &&& is_given(first, "-dsco"@, "MINZOOM="@ + decimal(s.min_zoom as nat))
            &&& is_given(first, "-dsco"@, "MAXZOOM="@ + decimal(s.max_zoom as nat))
            &&& is_given(first, "-dsco"@, "TYPE=overlay"@)
            &&& place > 0 ==> args.len() == 14 && args[2] == "-update"@ && args[3] == "-append"@
                && args.take(2) == first.take(2) && args.skip(4) == first.skip(2)
        }),
{
    let first = gdal_arguments(s, 0, layer, path);
    let args = gdal_arguments(s, place, layer, path);
    assert(first[6] == "-dsco"@ && first[8] == "-dsco"@ && first[10] == "-dsco"@);
    if place > 0 {
        assert(args.take(2) =~= first.take(2));
        assert(args.skip(4) =~= first.skip(2));
    }
}

/// A program must be there exactly when some source is generated with it, under the
/// configured path where there is one.
pub proof fn lemma_tools_are_those_in_use(
    sources: Seq<SourceConfig>,
    tippecanoe_bin: Option<Seq<char>>,
    ogr2ogr_bin: Option<Seq<char>>,
)
    ensures
        ({
            let list = tools(sources, tippecanoe_bin, ogr2ogr_bin);
            let tippecanoe = exists|i: int|
                0 <= i < sources.len() && (#[trigger] sources[i]).generation_backend
                    == GenerationBackend::Tippecanoe;
            let gdal = exists|i: int|
                0 <= i < sources.len() && (#[trigger] sources[i]).generation_backend
                    == GenerationBackend::Gdal;
            &&& list.len() == one_if(tippecanoe) + one_if(gdal)
            &&& tippecanoe ==> list[0].0 == "tippecanoe"@ && list[0].1 == match tippecanoe_bin {
                Some(path) => path,
                None => "tippecanoe"@,
            }
            &&& gdal ==> list.last().0 == "ogr2ogr"@ && list.last().1 == match ogr2ogr_bin {
                Some(path) => path,
                None => "ogr2ogr"@,
            }
        }),
{
}

/// Required programs are taken one for one, and are all that stands in them.
pub proof fn lemma_tools_one_for_one(list: Seq<RequiredTool>)
    ensures
        tool_models(list).len() == list.len(),
        forall|i: int|
            0 <= i < list.len() ==> #[trigger] tool_models(list)[i] == (
                list[i].name@,
                list[i].program@,
            ),
{
}

/// A program is called by its configured path, and by its own name where none is
/// configured.
pub proof fn lemma_configured_path_is_called(name: Seq<char>, custom: Option<&str>)
    ensures
        custom is Some ==> called(name, ref_text(custom)) == custom->0@,
        custom is None ==> called(name, ref_text(custom)) == name,
{
}

} // verus!
