//! Geometries: reading them from GeoJSON, and writing them as tile commands.
use crate::json::{
    bits_of, field, item, json_array, json_bits, json_field, json_item, json_of, json_str, jsons,
    number_bits, Json,
};
use crate::text::same_text;
use serde_json::Value;
use vstd::prelude::*;

verus! {

/// Kind of a feature in a tile.
#[derive(Debug, Clone, Copy, PartialEq, Eq, Structural)]
pub enum GeomType {
    Unknown,
    Point,
    Linestring,
    Polygon,
}

/// Kind of a geometry as it is given.
#[derive(Debug, Clone, Copy, PartialEq, Eq, Structural)]
pub enum ShapeKind {
    Point,
    MultiPoint,
    LineString,
    MultiLineString,
    Polygon,
    MultiPolygon,
    Unknown,
}

/// A position on the map: degrees, as the bits of IEEE 754 doubles.
#[derive(Debug, Clone, Copy, PartialEq, Eq, Structural)]
pub struct LonLat {
    pub lon: u64,
    pub lat: u64,
}

/// A position in a tile.
#[derive(Debug, Clone, Copy, PartialEq, Eq, Structural)]
pub struct TileXy {
    pub x: i32,
    pub y: i32,
}

/// A geometry on the map: its points, line by line or ring by ring.
#[derive(Debug)]
pub struct WorldShape {
    pub kind: ShapeKind,
    pub rings: Vec<Vec<LonLat>>,
}

/// A geometry in a tile.
#[derive(Debug)]
pub struct TileShape {
    pub kind: ShapeKind,
    pub rings: Vec<Vec<TileXy>>,
}

/// The contents of nested vectors.
pub open spec fn nested<T>(rings: Seq<Vec<T>>) -> Seq<Seq<T>> {
    Seq::new(rings.len(), |i: int| rings[i]@)
}

/// The kind that a geometry states.
pub open spec fn kind_of(geometry: Json) -> ShapeKind {
    match field(geometry, "type"@) {
        Some(Json::Text(name)) => if name == "Point"@ {
            ShapeKind::Point
        } else if name == "MultiPoint"@ {
            ShapeKind::MultiPoint
        } else if name == "LineString"@ {
            ShapeKind::LineString
        } else if name == "MultiLineString"@ {
            ShapeKind::MultiLineString
        } else if name == "Polygon"@ {
            ShapeKind::Polygon
        } else if name == "MultiPolygon"@ {
            ShapeKind::MultiPolygon
        } else {
            ShapeKind::Unknown
        },
        _ => ShapeKind::Unknown,
    }
}

/// The kind of feature for a kind of geometry.
pub open spec fn feature_kind(kind: ShapeKind) -> GeomType {
    match kind {
        ShapeKind::Point | ShapeKind::MultiPoint => GeomType::Point,
        ShapeKind::LineString | ShapeKind::MultiLineString => GeomType::Linestring,
        ShapeKind::Polygon | ShapeKind::MultiPolygon => GeomType::Polygon,
        ShapeKind::Unknown => GeomType::Unknown,
    }
}

/// Read the kind that a geometry states.
pub fn shape_kind(geometry: &Value) -> (kind: ShapeKind)
    ensures
        kind == kind_of(json_of(*geometry)),
{
    let name: &str = match json_field(geometry, "type") {
        None => {
            return ShapeKind::Unknown;
        },
        Some(value) => match json_str(value) {
            None => {
                return ShapeKind::Unknown;
            },
            Some(name) => name,
        },
    };
    if same_text(name, "Point") {
        ShapeKind::Point
    } else if same_text(name, "MultiPoint") {
        ShapeKind::MultiPoint
    } else if same_text(name, "LineString") {
        ShapeKind::LineString
    } else if same_text(name, "MultiLineString") {
        ShapeKind::MultiLineString
    } else if same_text(name, "Polygon") {
        ShapeKind::Polygon
    } else if same_text(name, "MultiPolygon") {
        ShapeKind::MultiPolygon
    } else {
        ShapeKind::Unknown
    }
}

/// The kind of feature for a kind of geometry.
pub fn feature_kind_of(kind: ShapeKind) -> (found: GeomType)
    ensures
        found == feature_kind(kind),
{
    match kind {
        ShapeKind::Point | ShapeKind::MultiPoint => GeomType::Point,
        ShapeKind::LineString | ShapeKind::MultiLineString => GeomType::Linestring,
        ShapeKind::Polygon | ShapeKind::MultiPolygon => GeomType::Polygon,
        ShapeKind::Unknown => GeomType::Unknown,
    }
}

/// The kind of feature that a geometry makes.
pub fn detect_geom_type(geometry: &Value) -> (kind: GeomType)
    ensures
        kind == feature_kind(kind_of(json_of(*geometry))),
{
    feature_kind_of(shape_kind(geometry))
}

/// One coordinate of a position; zero where it is missing or no number.
pub open spec fn coordinate(position: Json, i: int) -> u64 {
    match item(position, i) {
        Some(value) => match bits_of(value) {
            Some(bits) => bits,
            None => 0,
        },
        None => 0,
    }
}

/// A position, with zero for what is missing.
pub open spec fn position(json: Json) -> LonLat {
    LonLat { lon: coordinate(json, 0), lat: coordinate(json, 1) }
}

/// The items of an array, and none of anything else.
pub open spec fn items(json: Option<Json>) -> Seq<Json> {
    match json {
        Some(Json::Array(items)) => items,
        _ => Seq::empty(),
    }
}

/// A line of positions.
pub open spec fn line(json: Json) -> Seq<LonLat> {
    Seq::new(items(Some(json)).len(), |i: int| position(items(Some(json))[i]))
}

/// Lines of positions.
pub open spec fn lines(list: Seq<Json>) -> Seq<Seq<LonLat>> {
    Seq::new(list.len(), |i: int| line(list[i]))
}

/// The rings of several polygons, one behind the other.
pub open spec fn all_rings(polygons: Seq<Json>) -> Seq<Seq<LonLat>>
    decreases polygons.len(),
{
    if polygons.len() == 0 {
        Seq::empty()
    } else {
        all_rings(polygons.drop_last()) + lines(items(Some(polygons.last())))
    }
}

/// The lines that a geometry consists of.
pub open spec fn geometry_lines(geometry: Json) -> Seq<Seq<LonLat>> {
    let coordinates = field(geometry, "coordinates"@);
    let whole = match coordinates {
        Some(json) => json,
        None => Json::Null,
    };
    match kind_of(geometry) {
        ShapeKind::Point => seq![seq![position(whole)]],
        ShapeKind::MultiPoint | ShapeKind::LineString => seq![line(whole)],
        ShapeKind::MultiLineString | ShapeKind::Polygon => lines(items(coordinates)),
        ShapeKind::MultiPolygon => all_rings(items(coordinates)),
        ShapeKind::Unknown => Seq::empty(),
    }
}

fn read_coordinate(value: &Value, i: usize) -> (bits: u64)
    ensures
        bits == coordinate(json_of(*value), i as int),
{
    match json_item(value, i) {
        None => 0,
        Some(value) => match json_bits(value) {
            None => 0,
            Some(bits) => bits,
        },
    }
}

fn read_position(value: &Value) -> (point: LonLat)
    ensures
        point == position(json_of(*value)),
{
    LonLat { lon: read_coordinate(value, 0), lat: read_coordinate(value, 1) }
}

fn read_line(value: &Value) -> (points: Vec<LonLat>)
    ensures
        points@ == line(json_of(*value)),
{
    let mut points: Vec<LonLat> = Vec::new();
    if let Some(list) = json_array(value) {
        for i in 0..list.len()
            invariant
                json_of(*value) == Json::Array(jsons(list@)),
                points@ == line(json_of(*value)).take(i as int),
        {
            points.push(read_position(&list[i]));
            assert(points@ =~= line(json_of(*value)).take(i as int + 1));
        }
        assert(line(json_of(*value)).take(list@.len() as int) =~= line(json_of(*value)));
    } else {
        assert(points@ =~= line(json_of(*value)));
    }
    points
}

/// Append the lines of a list.
fn read_lines(list: &Vec<Value>, rings: &mut Vec<Vec<LonLat>>)
    ensures
        nested(final(rings)@) == nested(old(rings)@) + lines(jsons(list@)),
{
    let ghost before = nested(rings@);
    assert(before + lines(jsons(list@)).take(0) =~= before);
    for i in 0..list.len()
        invariant
            nested(rings@) == before + lines(jsons(list@)).take(i as int),
    {
        let ghost held = rings@;
        let points: Vec<LonLat> = read_line(&list[i]);
        rings.push(points);
        assert(nested(rings@) =~= nested(held).push(points@));
        assert(lines(jsons(list@)).take(i as int + 1) =~= lines(jsons(list@)).take(i as int).push(
            points@,
        ));
        assert(nested(rings@) =~= before + lines(jsons(list@)).take(i as int + 1));
    }
    assert(lines(jsons(list@)).take(list@.len() as int) =~= lines(jsons(list@)));
}

/// Read a geometry. What is missing in a position reads as zero, and what is no
/// list as an empty one.
pub fn read_geometry(geometry: &Value) -> (shape: WorldShape)
    ensures
        shape.kind == kind_of(json_of(*geometry)),
        nested(shape.rings@) == geometry_lines(json_of(*geometry)),
{
    let ghost model = json_of(*geometry);
    let kind: ShapeKind = shape_kind(geometry);
    let coordinates: Option<&Value> = json_field(geometry, "coordinates");
    let mut rings: Vec<Vec<LonLat>> = Vec::new();
    match kind {
        ShapeKind::Point => {
            let point: LonLat = match coordinates {
                Some(value) => read_position(value),
                None => LonLat { lon: 0, lat: 0 },
            };
            let mut points: Vec<LonLat> = Vec::new();
            points.push(point);
            assert(points@ =~= seq![point]);
            rings.push(points);
        },
        ShapeKind::MultiPoint | ShapeKind::LineString => {
            let points: Vec<LonLat> = match coordinates {
                Some(value) => read_line(value),
                None => Vec::new(),
            };
            assert(coordinates is None ==> points@ =~= line(Json::Null));
            rings.push(points);
        },
        ShapeKind::MultiLineString | ShapeKind::Polygon => {
            if let Some(value) = coordinates {
                if let Some(list) = json_array(value) {
                    read_lines(list, &mut rings);
                }
            }
        },
        ShapeKind::MultiPolygon => {
            if let Some(value) = coordinates {
                if let Some(list) = json_array(value) {
                    let ghost all = jsons(list@);
                    assert(all.take(0) =~= Seq::<Json>::empty());
                    assert(nested(rings@) =~= all_rings(all.take(0)));
                    for i in 0..list.len()
                        invariant
                            all == jsons(list@),
                            nested(rings@) == all_rings(all.take(i as int)),
                    {
                        let ghost held = nested(rings@);
                        proof {
                            assert(all.take(i + 1).drop_last() =~= all.take(i as int));
                            assert(all.take(i + 1).last() == all[i as int]);
                        }
                        if let Some(polygon) = json_array(&list[i]) {
                            read_lines(polygon, &mut rings);
                        } else {
                            assert(lines(items(Some(all[i as int]))) =~= Seq::empty());
                            assert(held + Seq::<Seq<LonLat>>::empty() =~= held);
                        }
                    }
                    assert(all.take(all.len() as int) =~= all);
                }
            }
        },
        ShapeKind::Unknown => {},
    }
    assert(nested(rings@) =~= geometry_lines(model));
    WorldShape { kind, rings }
}

/// A position with both coordinates.
pub open spec fn full_position(json: Json) -> Option<LonLat> {
    match (item(json, 0), item(json, 1)) {
        (Some(x), Some(y)) => match (bits_of(x), bits_of(y)) {
            (Some(lon), Some(lat)) => Some(LonLat { lon, lat }),
            _ => None,
        },
        _ => None,
    }
}

/// The full positions among some.
pub open spec fn full_positions(list: Seq<Json>) -> Seq<LonLat>
    decreases list.len(),
{
    if list.len() == 0 {
        Seq::empty()
    } else {
        let front = full_positions(list.drop_last());
        match full_position(list.last()) {
            Some(point) => front.push(point),
            None => front,
        }
    }
}

/// A line that can be simplified: one of at least two full positions.
pub open spec fn full_line(json: Json) -> Option<Seq<LonLat>> {
    match json {
        Json::Array(list) => if full_positions(list).len() >= 2 {
            Some(full_positions(list))
        } else {
            None
        },
        _ => None,
    }
}

/// The lines among some that can be simplified.
pub open spec fn full_lines(list: Seq<Json>) -> Seq<Seq<LonLat>>
    decreases list.len(),
{
    if list.len() == 0 {
        Seq::empty()
    } else {
        let front = full_lines(list.drop_last());
        match full_line(list.last()) {
            Some(points) => front.push(points),
            None => front,
        }
    }
}

/// A polygon that can be simplified: its exterior ring first, then those of its
/// interior rings that can be simplified.
pub open spec fn full_polygon(json: Json) -> Option<Seq<Seq<LonLat>>> {
    match json {
        Json::Array(list) => if list.len() == 0 {
            None
        } else {
            match full_line(list[0]) {
                None => None,
                Some(exterior) => Some(seq![exterior] + full_lines(list.skip(1))),
            }
        },
        _ => None,
    }
}

/// The rings of the polygons among some that can be simplified.
pub open spec fn full_polygons(list: Seq<Json>) -> Seq<Seq<LonLat>>
    decreases list.len(),
{
    if list.len() == 0 {
        Seq::empty()
    } else {
        let front = full_polygons(list.drop_last());
        match full_polygon(list.last()) {
            Some(rings) => front + rings,
            None => front,
        }
    }
}

/// The lines of a geometry to simplify; none where the geometry stays as it is,
/// as points do.
pub open spec fn simplifiable(geometry: Json) -> Option<Seq<Seq<LonLat>>> {
    match (kind_of(geometry), field(geometry, "coordinates"@)) {
        (ShapeKind::LineString, Some(json)) => match full_line(json) {
            Some(points) => Some(seq![points]),
            None => None,
        },
        (ShapeKind::MultiLineString, Some(Json::Array(list))) => Some(full_lines(list)),
        (ShapeKind::Polygon, Some(json)) => full_polygon(json),
        (ShapeKind::MultiPolygon, Some(Json::Array(list))) => Some(full_polygons(list)),
        _ => None,
    }
}

fn read_full_position(value: &Value) -> (point: Option<LonLat>)
    ensures
        point == full_position(json_of(*value)),
{
    match (json_item(value, 0), json_item(value, 1)) {
        (Some(x), Some(y)) => match (json_bits(x), json_bits(y)) {
            (Some(lon), Some(lat)) => Some(LonLat { lon, lat }),
            _ => None,
        },
        _ => None,
    }
}

/// The full positions of a line, if there are at least two.
pub fn parse_linestring(coords: &Value) -> (points: Option<Vec<LonLat>>)
    ensures
        match points {
            Some(points) => full_line(json_of(*coords)) == Some(points@),
            None => full_line(json_of(*coords)) is None,
        },
{
    let list: &Vec<Value> = match json_array(coords) {
        Some(list) => list,
        None => {
            return None;
        },
    };
    let ghost all = jsons(list@);
    let mut points: Vec<LonLat> = Vec::new();
    assert(all.take(0) =~= Seq::<Json>::empty());
    for i in 0..list.len()
        invariant
            all == jsons(list@),
            points@ == full_positions(all.take(i as int)),
    {
        proof {
            assert(all.take(i + 1).drop_last() =~= all.take(i as int));
            assert(all.take(i + 1).last() == all[i as int]);
        }
        if let Some(point) = read_full_position(&list[i]) {
            points.push(point);
        }
    }
    assert(all.take(all.len() as int) =~= all);
    if points.len() >= 2 {
        Some(points)
    } else {
        None
    }
}

/// Append the lines of a list, from position `from` on, that can be simplified.
fn read_full_lines(list: &Vec<Value>, from: usize, rings: &mut Vec<Vec<LonLat>>)
    requires
        from <= list@.len(),
    ensures
        nested(final(rings)@) == nested(old(rings)@) + full_lines(jsons(list@).skip(from as int)),
{
    let ghost before = nested(rings@);
    let ghost all = jsons(list@).skip(from as int);
    assert(all.take(0) =~= Seq::<Json>::empty());
    assert(before + full_lines(all.take(0)) =~= before);
    for i in from..list.len()
        invariant
            from <= list@.len(),
            all == jsons(list@).skip(from as int),
            nested(rings@) == before + full_lines(all.take(i - from)),
    {
        let ghost held = rings@;
        proof {
            assert(all.take(i + 1 - from).drop_last() =~= all.take(i - from));
            assert(all.take(i + 1 - from).last() == json_of(list@[i as int]));
        }
        if let Some(points) = parse_linestring(&list[i]) {
            rings.push(points);
            assert(nested(rings@) =~= nested(held).push(points@));
            assert(nested(rings@) =~= before + full_lines(all.take(i + 1 - from)));
        }
    }
    assert(all.take(list@.len() - from) =~= all);
}

/// The rings of a polygon that can be simplified: the exterior first, then the
/// interior ones.
pub fn parse_polygon(coords: &Value) -> (rings: Option<Vec<Vec<LonLat>>>)
    ensures
        match rings {
            Some(rings) => full_polygon(json_of(*coords)) == Some(nested(rings@)),
            None => full_polygon(json_of(*coords)) is None,
        },
{
    let list: &Vec<Value> = match json_array(coords) {
        Some(list) => list,
        None => {
            return None;
        },
    };
    if list.len() == 0 {
        return None;
    }
    match parse_linestring(&list[0]) {
        None => None,
        Some(exterior) => {
            let mut rings: Vec<Vec<LonLat>> = Vec::new();
            let ghost outer = exterior@;
            rings.push(exterior);
            assert(nested(rings@) =~= seq![outer]);
            read_full_lines(list, 1, &mut rings);
            Some(rings)
        },
    }
}

/// The lines of a geometry to simplify, if it is one that is simplified.
pub fn simplification_input(geometry: &Value) -> (shape: Option<WorldShape>)
    ensures
        match shape {
            Some(shape) => simplifiable(json_of(*geometry)) == Some(nested(shape.rings@))
                && shape.kind == kind_of(json_of(*geometry)),
            None => simplifiable(json_of(*geometry)) is None,
        },
{
    let kind: ShapeKind = shape_kind(geometry);
    let coordinates: &Value = match json_field(geometry, "coordinates") {
        Some(value) => value,
        None => {
            return None;
        },
    };
    match kind {
        ShapeKind::LineString => match parse_linestring(coordinates) {
            None => None,
            Some(points) => {
                let ghost only = points@;
                let mut rings: Vec<Vec<LonLat>> = Vec::new();
                rings.push(points);
                assert(nested(rings@) =~= seq![only]);
                Some(WorldShape { kind, rings })
            },
        },
        ShapeKind::MultiLineString => match json_array(coordinates) {
            None => None,
            Some(list) => {
                let mut rings: Vec<Vec<LonLat>> = Vec::new();
                read_full_lines(list, 0, &mut rings);
                assert(jsons(list@).skip(0) =~= jsons(list@));
                assert(nested(rings@) =~= full_lines(jsons(list@)));
                Some(WorldShape { kind, rings })
            },
        },
        ShapeKind::Polygon => match parse_polygon(coordinates) {
            None => None,
            Some(rings) => Some(WorldShape { kind, rings }),
        },
        ShapeKind::MultiPolygon => match json_array(coordinates) {
            None => None,
            Some(list) => {
                let mut rings: Vec<Vec<LonLat>> = Vec::new();
                let ghost all = jsons(list@);
                assert(all.take(0) =~= Seq::<Json>::empty());
                assert(nested(rings@) =~= full_polygons(all.take(0)));
                for i in 0..list.len()
                    invariant
                        all == jsons(list@),
                        nested(rings@) == full_polygons(all.take(i as int)),
                {
                    let ghost held = rings@;
                    proof {
                        assert(all.take(i + 1).drop_last() =~= all.take(i as int));
                        assert(all.take(i + 1).last() == all[i as int]);
                    }
                    if let Some(mut more) = parse_polygon(&list[i]) {
                        let ghost added = more@;
                        rings.append(&mut more);
                        assert(nested(rings@) =~= nested(held) + nested(added));
                    }
                }
                assert(all.take(all.len() as int) =~= all);
                Some(WorldShape { kind, rings })
            },
        },
        _ => None,
    }
}

/// A number whose sign is kept in the lowest bit: 0, -1, 1, -2, 2, ...
pub open spec fn zigzagged(n: int) -> int {
    if n >= 0 {
        2 * n
    } else {
        -2 * n - 1
    }
}

/// The inverse of `zigzagged`.
pub open spec fn unzigzagged(u: int) -> int {
    if u % 2 == 0 {
        u / 2
    } else {
        -(u + 1) / 2
    }
}

/// ZigZag encoding for signed integers.
pub fn zigzag(n: i32) -> (u: u32)
    ensures
        u == zigzagged(n as int),
        unzigzagged(u as int) == n,
{
    if n >= 0 {
        2 * (n as u32)
    } else {
        let m: i64 = -(n as i64);
        (2 * m - 1) as u32
    }
}

/// A command: what to do in the low three bits, and how often in the others.
pub open spec fn command_word(id: int, count: int) -> u32 {
    (id % 8 + 8 * (count % 0x2000_0000)) as u32
}

/// Command encoding: the low three bits of the id, and the low 29 bits of the
/// count above them.
pub fn command(id: u32, count: u32) -> (word: u32)
    ensures
        word == command_word(id as int, count as int),
{
    (id % 8) + 8 * (count % 0x2000_0000)
}

/// The step to a position in two words.
pub open spec fn step(from: TileXy, to: TileXy) -> Seq<u32> {
    seq![zigzagged(to.x - from.x) as u32, zigzagged(to.y - from.y) as u32]
}

/// The steps from one position to the next, up to position `end`, starting from
/// position `from` which is taken from `start`.
pub open spec fn steps(points: Seq<TileXy>, start: TileXy, from: int, end: int) -> Seq<u32>
    decreases end - from,
{
    if end <= from {
        Seq::empty()
    } else {
        steps(points, start, from, end - 1) + step(
            if end - 1 == from {
                start
            } else {
                points[end - 2]
            },
            points[end - 1],
        )
    }
}

/// The origin of a tile.
pub open spec fn origin() -> TileXy {
    TileXy { x: 0, y: 0 }
}

/// The commands for a line, or for a ring, which is closed by a command of its
/// own in place of its last position. The first position is given from the origin.
/// Fewer than two positions make nothing.
pub open spec fn line_commands(points: Seq<TileXy>, close: bool) -> Seq<u32> {
    if points.len() < 2 {
        Seq::empty()
    } else {
        let end = if close {
            points.len() - 1
        } else {
            points.len() as int
        };
        let moved = seq![command_word(1, 1)] + step(origin(), points[0]);
        let drawn = if end > 1 {
            seq![command_word(2, end - 1)] + steps(points, points[0], 1, end)
        } else {
            Seq::empty()
        };
        let closed = if close {
            seq![command_word(7, 1)]
        } else {
            Seq::empty()
        };
        moved + drawn + closed
    }
}

/// The commands for lines or rings, each given from the origin.
pub open spec fn lines_commands(rings: Seq<Seq<TileXy>>, close: bool) -> Seq<u32>
    decreases rings.len(),
{
    if rings.len() == 0 {
        Seq::empty()
    } else {
        lines_commands(rings.drop_last(), close) + line_commands(rings.last(), close)
    }
}

/// The commands for several points.
pub open spec fn points_commands(points: Seq<TileXy>) -> Seq<u32> {
    if points.len() == 0 {
        Seq::empty()
    } else {
        seq![command_word(1, points.len() as int)] + steps(points, origin(), 0, points.len() as int)
    }
}

/// The commands for a geometry.
pub open spec fn geometry_commands(kind: ShapeKind, rings: Seq<Seq<TileXy>>) -> Seq<u32> {
    match kind {
        ShapeKind::Point => if rings.len() > 0 && rings[0].len() > 0 {
            seq![command_word(1, 1)] + step(origin(), rings[0][0])
        } else {
            Seq::empty()
        },
        ShapeKind::MultiPoint => if rings.len() > 0 {
            points_commands(rings[0])
        } else {
            Seq::empty()
        },
        ShapeKind::LineString | ShapeKind::MultiLineString => lines_commands(rings, false),
        ShapeKind::Polygon | ShapeKind::MultiPolygon => lines_commands(rings, true),
        ShapeKind::Unknown => Seq::empty(),
    }
}

/// The difference of two coordinates is one.
pub open spec fn step_fits(from: TileXy, to: TileXy) -> bool {
    &&& i32::MIN <= to.x - from.x <= i32::MAX
    &&& i32::MIN <= to.y - from.y <= i32::MAX
}

/// The step to position `i` of a line has differences that are coordinates.
pub open spec fn step_fits_at(points: Seq<TileXy>, i: int) -> bool {
    step_fits(points[i - 1], points[i])
}

/// All steps of a line have differences that are coordinates.
pub open spec fn line_fits(points: Seq<TileXy>) -> bool {
    forall|i: int| 0 < i < points.len() ==> #[trigger] step_fits_at(points, i)
}

/// All steps of a geometry have differences that are coordinates.
pub open spec fn shape_fits(rings: Seq<Seq<TileXy>>) -> bool {
    forall|i: int| 0 <= i < rings.len() ==> line_fits(#[trigger] rings[i])
}

/// Whether a step has differences that are coordinates.
fn fitting_step(from: TileXy, to: TileXy) -> (fits: bool)
    ensures
        fits == step_fits(from, to),
{
    let dx: i64 = to.x as i64 - from.x as i64;
    let dy: i64 = to.y as i64 - from.y as i64;
    i32::MIN as i64 <= dx && dx <= i32::MAX as i64 && i32::MIN as i64 <= dy && dy
        <= i32::MAX as i64
}

fn fitting_line(points: &Vec<TileXy>) -> (fits: bool)
    ensures
        fits == line_fits(points@),
{
    let mut j: usize = 1;
    while j < points.len()
        invariant
            1 <= j,
            forall|k: int| 0 < k < j && k < points@.len() ==> #[trigger] step_fits_at(points@, k),
        decreases points@.len() - j,
    {
        if !fitting_step(points[j - 1], points[j]) {
            assert(!step_fits_at(points@, j as int));
            return false;
        }
        j = j + 1;
    }
    true
}

impl TileShape {
    /// All steps of the geometry have differences that are coordinates.
    pub open spec fn steps_fit(&self) -> bool {
        shape_fits(nested(self.rings@))
    }

    /// Whether all differences between successive positions are coordinates.
    pub fn fits(&self) -> (fits: bool)
        ensures
            fits == self.steps_fit(),
    {
        for i in 0..self.rings.len()
            invariant
                forall|k: int| 0 <= k < i ==> line_fits(#[trigger] nested(self.rings@)[k]),
        {
            assert(nested(self.rings@)[i as int] == self.rings@[i as int]@);
            if !fitting_line(&self.rings[i]) {
                return false;
            }
        }
        true
    }
}

fn push_step(words: &mut Vec<u32>, from: TileXy, to: TileXy)
    requires
        step_fits(from, to),
    ensures
        final(words)@ == old(words)@ + step(from, to),
{
    let ghost before = words@;
    words.push(zigzag(to.x - from.x));
    words.push(zigzag(to.y - from.y));
    assert(words@ =~= before + step(from, to));
}

/// Append the commands for a line or a ring.
fn encode_ring(points: &Vec<TileXy>, close: bool, words: &mut Vec<u32>)
    requires
        line_fits(points@),
    ensures
        final(words)@ == old(words)@ + line_commands(points@, close),
{
    let ghost before = words@;
    if points.len() < 2 {
        assert(words@ =~= before + line_commands(points@, close));
        return;
    }
    words.push(command(1, 1));
    push_step(words, TileXy { x: 0, y: 0 }, points[0]);
    let ghost moved = seq![command_word(1, 1)] + step(origin(), points@[0]);
    assert(words@ =~= before + moved);
    let end: usize = if close { points.len() - 1 } else { points.len() };
    let ghost drawn = if end > 1 {
        seq![command_word(2, end - 1)] + steps(points@, points@[0], 1, end as int)
    } else {
        Seq::empty()
    };
    if end > 1 {
        let count: u64 = (end - 1) as u64;
        words.push(command(2, (count % 0x2000_0000) as u32));
        proof {
            vstd::arithmetic::div_mod::lemma_mod_twice(count as int, 0x2000_0000);
        }
        let ghost led = before + moved + seq![command_word(2, end - 1)];
        assert(words@ =~= led);
        assert(led + steps(points@, points@[0], 1, 1) =~= led);
        for i in 1..end
            invariant
                end <= points@.len(),
                line_fits(points@),
                words@ == led + steps(points@, points@[0], 1, i as int),
        {
            assert(step_fits_at(points@, i as int));
            push_step(words, points[i - 1], points[i]);
            assert(words@ =~= led + steps(points@, points@[0], 1, i as int + 1));
        }
        assert(words@ =~= before + moved + drawn);
    } else {
        assert(words@ =~= before + moved + drawn);
    }
    if close {
        words.push(command(7, 1));
    }
    assert(words@ =~= before + line_commands(points@, close));
}

/// Append the commands for several lines or rings.
fn encode_rings(rings: &Vec<Vec<TileXy>>, close: bool, words: &mut Vec<u32>)
    requires
        shape_fits(nested(rings@)),
    ensures
        final(words)@ == old(words)@ + lines_commands(nested(rings@), close),
{
    let ghost before = words@;
    let ghost all = nested(rings@);
    assert(all.take(0) =~= Seq::<Seq<TileXy>>::empty());
    assert(before + lines_commands(all.take(0), close) =~= before);
    for i in 0..rings.len()
        invariant
            all == nested(rings@),
            shape_fits(all),
            words@ == before + lines_commands(all.take(i as int), close),
    {
        proof {
            assert(all.take(i + 1).drop_last() =~= all.take(i as int));
            assert(all.take(i + 1).last() == all[i as int]);
            assert(line_fits(all[i as int]));
        }
        encode_ring(&rings[i], close, words);
        assert(words@ =~= before + lines_commands(all.take(i as int + 1), close));
    }
    assert(all.take(all.len() as int) =~= all);
}

fn encode_multi_point(points: &Vec<TileXy>) -> (words: Vec<u32>)
    requires
        line_fits(points@),
    ensures
        words@ == points_commands(points@),
{
    let mut words: Vec<u32> = Vec::new();
    if points.len() == 0 {
        assert(words@ =~= points_commands(points@));
        return words;
    }
    let count: u64 = points.len() as u64;
    words.push(command(1, (count % 0x2000_0000) as u32));
    proof {
        vstd::arithmetic::div_mod::lemma_mod_twice(count as int, 0x2000_0000);
    }
    let ghost led = seq![command_word(1, points@.len() as int)];
    assert(words@ =~= led);
    assert(led + steps(points@, origin(), 0, 0) =~= led);
    let mut last: TileXy = TileXy { x: 0, y: 0 };
    for i in 0..points.len()
        invariant
            line_fits(points@),
            last == (if i == 0 { origin() } else { points@[i - 1] }),
            words@ == led + steps(points@, origin(), 0, i as int),
    {
        assert(i > 0 ==> step_fits_at(points@, i as int));
        push_step(&mut words, last, points[i]);
        last = points[i];
        assert(words@ =~= led + steps(points@, origin(), 0, i as int + 1));
    }
    words
}

/// The tile commands for a geometry.
pub fn encode_geometry(shape: &TileShape) -> (words: Vec<u32>)
    requires
        shape.steps_fit(),
    ensures
        words@ == geometry_commands(shape.kind, nested(shape.rings@)),
{
    let mut words: Vec<u32> = Vec::new();
    let ghost rings = nested(shape.rings@);
    match shape.kind {
        ShapeKind::Point => {
            if shape.rings.len() > 0 && shape.rings[0].len() > 0 {
                words.push(command(1, 1));
                push_step(&mut words, TileXy { x: 0, y: 0 }, shape.rings[0][0]);
                assert(rings[0] == shape.rings@[0]@);
            }
        },
        ShapeKind::MultiPoint => {
            if shape.rings.len() > 0 {
                assert(line_fits(rings[0]));
                words = encode_multi_point(&shape.rings[0]);
            }
        },
        ShapeKind::LineString | ShapeKind::MultiLineString => {
            encode_rings(&shape.rings, false, &mut words);
        },
        ShapeKind::Polygon | ShapeKind::MultiPolygon => {
            encode_rings(&shape.rings, true, &mut words);
        },
        ShapeKind::Unknown => {},
    }
    assert(words@ =~= geometry_commands(shape.kind, rings));
    words
}

/// The positions that `count` steps lead through.
pub open spec fn walked(words: Seq<u32>, start: TileXy, count: nat) -> Seq<TileXy>
    decreases count,
{
    if count == 0 {
        Seq::empty()
    } else {
        let front = walked(words, start, (count - 1) as nat);
        let from = if count == 1 {
            start
        } else {
            front.last()
        };
        front.push(
            TileXy {
                x: (from.x + unzigzagged(words[2 * count - 2] as int)) as i32,
                y: (from.y + unzigzagged(words[2 * count - 1] as int)) as i32,
            },
        )
    }
}

/// A part of a drawing: its positions, and whether it is closed.
pub struct Part {
    pub points: Seq<TileXy>,
    pub closed: bool,
}

/// A drawing, and where the pen is.
pub struct Drawing {
    pub pen: TileXy,
    pub parts: Seq<Part>,
}

impl Drawing {
    /// Nothing is drawn yet.
    pub open spec fn blank() -> Drawing {
        Drawing { pen: origin(), parts: Seq::empty() }
    }

    /// A part starts at each of some positions.
    pub open spec fn moved(self, points: Seq<TileXy>) -> Drawing {
        Drawing {
            pen: points.last(),
            parts: self.parts + Seq::new(points.len(), |i: int| dot(points[i])),
        }
    }

    /// The last part goes on through some positions.
    pub open spec fn lined(self, points: Seq<TileXy>) -> Drawing {
        let last = self.parts.last();
        Drawing {
            pen: points.last(),
            parts: self.parts.drop_last().push(Part { points: last.points + points, ..last }),
        }
    }

    /// The last part is closed, and the pen stays where it is.
    pub open spec fn closed(self) -> Drawing {
        let last = self.parts.last();
        Drawing { parts: self.parts.drop_last().push(Part { closed: true, ..last }), ..self }
    }
}

/// A part of one position.
pub open spec fn dot(point: TileXy) -> Part {
    Part { points: seq![point], closed: false }
}

/// What a client draws by some commands, or `None` where they make no sense: a
/// move starts parts, a line goes on with the last part, and a close ends it.
pub open spec fn drawing_of(words: Seq<u32>, before: Drawing) -> Option<Drawing>
    decreases words.len(),
{
    if words.len() == 0 {
        Some(before)
    } else {
        let id = words[0] % 8;
        let count = (words[0] / 8) as nat;
        if id == 7 && count == 1 && before.parts.len() > 0 {
            drawing_of(words.skip(1), before.closed())
        } else if count == 0 || words.len() <= 2 * count {
            None
        } else {
            let points = walked(words.skip(1), before.pen, count);
            let rest = words.skip(1 + 2 * count as int);
            if id == 1 {
                drawing_of(rest, before.moved(points))
            } else if id == 2 && before.parts.len() > 0 {
                drawing_of(rest, before.lined(points))
            } else {
                None
            }
        }
    }
}

/// Where the pen is left by a line, or by a ring, which is closed without moving
/// the pen.
pub open spec fn line_end(points: Seq<TileXy>, close: bool) -> TileXy {
    if close {
        points[points.len() - 2]
    } else {
        points.last()
    }
}

/// Where the pen is left by lines or rings. It starts at the origin, and what is
/// not drawn does not move it.
pub open spec fn pen_after(rings: Seq<Seq<TileXy>>, close: bool) -> TileXy
    decreases rings.len(),
{
    if rings.len() == 0 {
        origin()
    } else if rings.last().len() < 2 {
        pen_after(rings.drop_last(), close)
    } else {
        line_end(rings.last(), close)
    }
}

/// Line `i` is drawn by a pen that comes from the origin, if it is drawn.
pub open spec fn drawn_from_origin(rings: Seq<Seq<TileXy>>, close: bool, i: int) -> bool {
    rings[i].len() >= 2 ==> pen_after(rings.take(i), close) == origin()
}

/// All lines are drawn by a pen that comes from the origin. Of a single line that
/// is always so.
pub open spec fn all_from_origin(rings: Seq<Seq<TileXy>>, close: bool) -> bool {
    forall|i: int| 0 <= i < rings.len() ==> #[trigger] drawn_from_origin(rings, close, i)
}

/// The part that is a line or, without its last position, a ring.
pub open spec fn line_part(points: Seq<TileXy>, close: bool) -> Part {
    Part {
        points: if close {
            points.drop_last()
        } else {
            points
        },
        closed: close,
    }
}

/// The parts that are lines or rings; fewer than two positions are none.
pub open spec fn line_parts(rings: Seq<Seq<TileXy>>, close: bool) -> Seq<Part>
    decreases rings.len(),
{
    if rings.len() == 0 {
        Seq::empty()
    } else {
        let front = line_parts(rings.drop_last(), close);
        if rings.last().len() < 2 {
            front
        } else {
            front.push(line_part(rings.last(), close))
        }
    }
}

/// The parts of a geometry.
pub open spec fn geometry_parts(kind: ShapeKind, rings: Seq<Seq<TileXy>>) -> Seq<Part> {
    match kind {
        ShapeKind::Point => if rings.len() > 0 && rings[0].len() > 0 {
            seq![dot(rings[0][0])]
        } else {
            Seq::empty()
        },
        ShapeKind::MultiPoint => if rings.len() > 0 {
            Seq::new(rings[0].len(), |i: int| dot(rings[0][i]))
        } else {
            Seq::empty()
        },
        ShapeKind::LineString | ShapeKind::MultiLineString => line_parts(rings, false),
        ShapeKind::Polygon | ShapeKind::MultiPolygon => line_parts(rings, true),
        ShapeKind::Unknown => Seq::empty(),
    }
}

proof fn lemma_step_is_undone(from: TileXy, to: TileXy)
    requires
        step_fits(from, to),
    ensures
        (from.x + unzigzagged(step(from, to)[0] as int)) as i32 == to.x,
        (from.y + unzigzagged(step(from, to)[1] as int)) as i32 == to.y,
{
}

proof fn lemma_walked_steps(points: Seq<TileXy>, words: Seq<u32>, tail: Seq<u32>, n: nat)
    requires
        line_fits(points),
        n < points.len(),
        words == steps(points, points[0], 1, n as int + 1),
    ensures
        words.len() == 2 * n,
        walked(words + tail, points[0], n) == points.subrange(1, n as int + 1),
    decreases n,
{
    if n == 0 {
        assert(points.subrange(1, 1) =~= Seq::<TileXy>::empty());
    } else {
        let m = (n - 1) as nat;
        let front = steps(points, points[0], 1, n as int);
        let last = step(points[n - 1], points[n as int]);
        assert(words == front + last);
        lemma_walked_steps(points, front, last + tail, m);
        assert(words + tail =~= front + (last + tail));
        assert(step_fits_at(points, n as int));
        assert((words + tail)[2 * n - 2] == last[0]);
        assert((words + tail)[2 * n - 1] == last[1]);
        assert(points.subrange(1, n as int + 1) =~= points.subrange(1, n as int).push(
            points[n as int],
        ));
        if n > 1 {
            assert(points.subrange(1, n as int).last() == points[n - 1]);
        }
        lemma_step_is_undone(points[n - 1], points[n as int]);
        assert(walked(words + tail, points[0], m) == points.subrange(1, n as int));
        assert(walked(words + tail, points[0], n) =~= points.subrange(1, n as int).push(
            points[n as int],
        ));
    }
}

/// The commands of a line, before others: the line is drawn, and the pen is left
/// at its end.
#[verifier::spinoff_prover]
#[verifier::rlimit(60)]
proof fn lemma_line_is_drawn(points: Seq<TileXy>, close: bool, before: Drawing, tail: Seq<u32>)
    requires
        2 <= points.len() < 0x2000_0000,
        line_fits(points),
        before.pen == origin(),
    ensures
        drawing_of(line_commands(points, close) + tail, before) == drawing_of(
            tail,
            Drawing {
                pen: line_end(points, close),
                parts: before.parts.push(line_part(points, close)),
            },
        ),
{
    let end = if close {
        points.len() - 1
    } else {
        points.len() as int
    };
    let closed = if close {
        seq![command_word(7, 1)]
    } else {
        Seq::<u32>::empty()
    };
    let drawn = if end > 1 {
        seq![command_word(2, end - 1)] + steps(points, points[0], 1, end)
    } else {
        Seq::empty()
    };
    let first = step(before.pen, points[0]);
    let words = line_commands(points, close) + tail;
    let rest = drawn + closed + tail;
    let moved = before.moved(seq![points[0]]);
    assert(drawing_of(words, before) == drawing_of(rest, moved)) by {
        assert(words[0] == command_word(1, 1));
        assert(words.skip(1)[0] == first[0] && words.skip(1)[1] == first[1]);
        assert(walked(words.skip(1), before.pen, 0) == Seq::<TileXy>::empty());
        assert(walked(words.skip(1), before.pen, 1) =~= seq![points[0]]);
        assert(words.skip(3) =~= rest);
    }
    assert(moved.parts =~= before.parts.push(dot(points[0])));
    let lined = Drawing {
        pen: points[end - 1],
        parts: before.parts.push(Part { points: points.take(end), closed: false }),
    };
    assert(drawing_of(rest, moved) == drawing_of(closed + tail, lined)) by {
        assert(moved.parts.drop_last() =~= before.parts);
        if end > 1 {
            let n = (end - 1) as nat;
            let walk = steps(points, points[0], 1, end);
            assert(rest[0] == command_word(2, end - 1));
            assert(rest[0] % 8 == 2 && rest[0] / 8 == n);
            assert(rest.skip(1) =~= walk + (closed + tail));
            lemma_walked_steps(points, walk, closed + tail, n);
            assert(rest.skip(1 + 2 * n as int) =~= closed + tail);
            let through = points.subrange(1, end);
            assert(seq![points[0]] + through =~= points.take(end));
            assert(through.last() == points[end - 1]);
            assert(moved.lined(through).parts =~= lined.parts);
        } else {
            assert(rest =~= closed + tail);
            assert(points.take(1) =~= seq![points[0]]);
            assert(moved.parts =~= lined.parts);
        }
    }
    let done = before.parts.push(line_part(points, close));
    if close {
        assert((closed + tail)[0] == command_word(7, 1));
        assert((closed + tail).skip(1) =~= tail);
        assert(lined.parts.drop_last() =~= before.parts);
        assert(points.take(end) =~= points.drop_last());
        assert(lined.closed().parts =~= done);
    } else {
        assert(closed + tail =~= tail);
        assert(points.take(end) =~= points);
        assert(lined.parts =~= done);
    }
}

proof fn lemma_lines_are_drawn(rings: Seq<Seq<TileXy>>, close: bool, tail: Seq<u32>)
    requires
        forall|i: int|
            0 <= i < rings.len() ==> line_fits(#[trigger] rings[i]) && rings[i].len() < 0x2000_0000,
        all_from_origin(rings, close),
    ensures
        drawing_of(lines_commands(rings, close) + tail, Drawing::blank()) == drawing_of(
            tail,
            Drawing { pen: pen_after(rings, close), parts: line_parts(rings, close) },
        ),
    decreases rings.len(),
{
    if rings.len() == 0 {
        assert(lines_commands(rings, close) + tail =~= tail);
    } else {
        let front = rings.drop_last();
        let points = rings.last();
        let n = rings.len() - 1;
        let pen = pen_after(front, close);
        let words = line_commands(points, close);
        assert(line_fits(rings[n]));
        assert(drawn_from_origin(rings, close, n));
        assert(rings.take(n) =~= front);
        assert forall|i: int| 0 <= i < front.len() implies line_fits(#[trigger] front[i])
            && front[i].len() < 0x2000_0000 by {
            assert(front[i] == rings[i]);
        }
        assert forall|i: int| 0 <= i < front.len() implies #[trigger] drawn_from_origin(
            front,
            close,
            i,
        ) by {
            assert(drawn_from_origin(rings, close, i));
            assert(front.take(i) =~= rings.take(i));
        }
        lemma_lines_are_drawn(front, close, words + tail);
        assert(lines_commands(rings, close) + tail =~= lines_commands(front, close) + (words
            + tail));
        if points.len() < 2 {
            assert(words + tail =~= tail);
        } else {
            lemma_line_is_drawn(
                points,
                close,
                Drawing { pen, parts: line_parts(front, close) },
                tail,
            );
        }
    }
}

proof fn lemma_walked_points(points: Seq<TileXy>, words: Seq<u32>, tail: Seq<u32>, n: nat)
    requires
        line_fits(points),
        n <= points.len(),
        words == steps(points, origin(), 0, n as int),
    ensures
        words.len() == 2 * n,
        walked(words + tail, origin(), n) == points.take(n as int),
    decreases n,
{
    if n == 0 {
        assert(points.take(0) =~= Seq::<TileXy>::empty());
    } else {
        let m = (n - 1) as nat;
        let from = if n == 1 {
            origin()
        } else {
            points[n - 2]
        };
        let front = steps(points, origin(), 0, m as int);
        let last = step(from, points[n - 1]);
        assert(words == front + last);
        lemma_walked_points(points, front, last + tail, m);
        assert(words + tail =~= front + (last + tail));
        assert(n > 1 ==> step_fits_at(points, n - 1));
        assert((words + tail)[2 * n - 2] == last[0]);
        assert((words + tail)[2 * n - 1] == last[1]);
        lemma_step_is_undone(from, points[n - 1]);
        assert(points.take(n as int) =~= points.take(m as int).push(points[n - 1]));
        if n > 1 {
            assert(points.take(m as int).last() == points[n - 2]);
        }
    }
}

/// What is drawn is what was given: a client that follows the commands of a line or
/// a ring from the origin draws exactly that, at its positions and in their order.
/// The last position of a ring is where the ring is closed. The commands of several
/// lines are these, one behind the other.
pub proof fn lemma_line_commands_draw_line(points: Seq<TileXy>, close: bool)
    requires
        2 <= points.len() < 0x2000_0000,
        line_fits(points),
    ensures
        drawing_of(line_commands(points, close), Drawing::blank()) matches Some(drawing)
            && drawing.parts == seq![line_part(points, close)],
{
    let none = Seq::<u32>::empty();
    lemma_line_is_drawn(points, close, Drawing::blank(), none);
    assert(line_commands(points, close) + none =~= line_commands(points, close));
    assert(Drawing::blank().parts.push(line_part(points, close)) =~= seq![line_part(points, close)]);
}

/// A client that follows the commands of a whole geometry draws its parts, each at
/// its positions and in their order, where the pen is back at the origin before
/// each line or ring: every one is given from there.
pub proof fn lemma_geometry_commands_draw_geometry(kind: ShapeKind, rings: Seq<Seq<TileXy>>)
    requires
        shape_fits(rings),
        match kind {
            ShapeKind::LineString | ShapeKind::MultiLineString => all_from_origin(rings, false),
            ShapeKind::Polygon | ShapeKind::MultiPolygon => all_from_origin(rings, true),
            _ => true,
        },
        forall|i: int| 0 <= i < rings.len() ==> (#[trigger] rings[i]).len() < 0x2000_0000,
    ensures
        drawing_of(geometry_commands(kind, rings), Drawing::blank()) matches Some(drawing)
            && drawing.parts == geometry_parts(kind, rings),
{
    let words = geometry_commands(kind, rings);
    let none = Seq::<u32>::empty();
    match kind {
        ShapeKind::LineString | ShapeKind::MultiLineString => {
            lemma_lines_are_drawn(rings, false, none);
            assert(words + none =~= words);
        },
        ShapeKind::Polygon | ShapeKind::MultiPolygon => {
            lemma_lines_are_drawn(rings, true, none);
            assert(words + none =~= words);
        },
        ShapeKind::Point => {
            if rings.len() > 0 && rings[0].len() > 0 {
                lemma_points_are_drawn(seq![rings[0][0]]);
                let point = seq![rings[0][0]];
                assert(steps(point, origin(), 0, 0) == none);
                assert(words =~= points_commands(point));
                assert(geometry_parts(kind, rings) =~= Seq::new(1, |i: int| dot(point[i])));
            }
        },
        ShapeKind::MultiPoint => {
            if rings.len() > 0 {
                assert(line_fits(rings[0]));
                if rings[0].len() > 0 {
                    lemma_points_are_drawn(rings[0]);
                } else {
                    assert(geometry_parts(kind, rings) =~= Seq::<Part>::empty());
                }
            }
        },
        ShapeKind::Unknown => {},
    }
}

proof fn lemma_points_are_drawn(points: Seq<TileXy>)
    requires
        0 < points.len() < 0x2000_0000,
        line_fits(points),
    ensures
        drawing_of(points_commands(points), Drawing::blank()) matches Some(drawing)
            && drawing.parts == Seq::new(points.len(), |i: int| dot(points[i])),
{
    let words = points_commands(points);
    let n = points.len();
    let walk = steps(points, origin(), 0, n as int);
    lemma_walked_points(points, walk, Seq::empty(), n);
    assert(words.skip(1) =~= walk);
    assert(walk + Seq::<u32>::empty() =~= walk);
    assert(points.take(n as int) =~= points);
    let drawing = Drawing::blank().moved(points);
    let rest = words.skip(1 + 2 * n as int);
    assert(words[0] == command_word(1, n as int));
    assert(words[0] % 8 == 1 && words[0] / 8 == n);
    assert(rest =~= Seq::<u32>::empty());
    assert(walked(words.skip(1), origin(), n) == points);
    assert(drawing_of(words, Drawing::blank()) == drawing_of(rest, drawing));
    assert(drawing_of(rest, drawing) == Some(drawing));
    assert(drawing.parts =~= Seq::new(n, |i: int| dot(points[i])));
}

/// A coordinate is the one at place `k` of a JSON position: the number there, or
/// zero where there is none.
pub open spec fn is_degree(bits: u64, json: Json, k: int) -> bool {
    match json {
        Json::Array(list) => if k < list.len() {
            match list[k] {
                Json::Number(text) => match number_bits(text) {
                    Some(number) => bits == number,
                    None => bits == 0,
                },
                _ => bits == 0,
            }
        } else {
            bits == 0
        },
        _ => bits == 0,
    }
}

/// A position is a JSON position: longitude first, then latitude.
pub open spec fn stands_at(point: LonLat, json: Json) -> bool {
    is_degree(point.lon, json, 0) && is_degree(point.lat, json, 1)
}

/// Positions are those of a JSON array, one for each item and in their order. What
/// is no array has none.
pub open spec fn stand_along(points: Seq<LonLat>, json: Json) -> bool {
    match json {
        Json::Array(list) => {
            &&& points.len() == list.len()
            &&& forall|j: int| 0 <= j < list.len() ==> stands_at(#[trigger] points[j], list[j])
        },
        _ => points.len() == 0,
    }
}

/// A geometry states a type by name.
pub open spec fn is_typed(geometry: Json, name: Seq<char>) -> bool {
    field(geometry, "type"@) == Some(Json::Text(name))
}

/// A geometry has these coordinates; where it has none, they are null.
pub open spec fn has_coordinates(geometry: Json, coordinates: Json) -> bool {
    match field(geometry, "coordinates"@) {
        Some(json) => json == coordinates,
        None => coordinates is Null,
    }
}

/// The kind of a geometry is the one that its type names, and no other.
pub proof fn lemma_kind_is_the_type(geometry: Json)
    ensures
        kind_of(geometry) is Point <==> is_typed(geometry, "Point"@),
        kind_of(geometry) is MultiPoint <==> is_typed(geometry, "MultiPoint"@),
        kind_of(geometry) is LineString <==> is_typed(geometry, "LineString"@),
        kind_of(geometry) is MultiLineString <==> is_typed(geometry, "MultiLineString"@),
        kind_of(geometry) is Polygon <==> is_typed(geometry, "Polygon"@),
        kind_of(geometry) is MultiPolygon <==> is_typed(geometry, "MultiPolygon"@),
{
    reveal_strlit("Point");
    reveal_strlit("MultiPoint");
    reveal_strlit("LineString");
    reveal_strlit("MultiLineString");
    reveal_strlit("Polygon");
    reveal_strlit("MultiPolygon");
    assert("Point"@.len() == 5 && "Polygon"@.len() == 7 && "MultiPoint"@.len() == 10
        && "LineString"@.len() == 10 && "MultiPolygon"@.len() == 12 && "MultiLineString"@.len()
        == 15);
    assert("MultiPoint"@[0] == 'M' && "LineString"@[0] == 'L');
}

/// A feature is drawn as what its geometry is: points, lines or areas.
pub proof fn lemma_feature_kind_is_the_type(geometry: Json)
    ensures
        feature_kind(kind_of(geometry)) is Point <==> is_typed(geometry, "Point"@) || is_typed(
            geometry,
            "MultiPoint"@,
        ),
        feature_kind(kind_of(geometry)) is Linestring <==> is_typed(geometry, "LineString"@)
            || is_typed(geometry, "MultiLineString"@),
        feature_kind(kind_of(geometry)) is Polygon <==> is_typed(geometry, "Polygon"@) || is_typed(
            geometry,
            "MultiPolygon"@,
        ),
{
    lemma_kind_is_the_type(geometry);
}

proof fn lemma_position_stands(json: Json)
    ensures
        stands_at(position(json), json),
{
}

proof fn lemma_line_stands(json: Json)
    ensures
        stand_along(line(json), json),
{
    if let Json::Array(list) = json {
        assert forall|j: int| 0 <= j < list.len() implies stands_at(
            #[trigger] line(json)[j],
            list[j],
        ) by {
            lemma_position_stands(list[j]);
        }
    }
}

/// A geometry is read as its coordinates say: of a polygon every ring and of several
/// lines every line, in their order, and of each every position; of a line and of
/// several points every position; of a point the position. What is of no known type
/// has nothing to draw.
pub proof fn lemma_geometry_is_read_whole(geometry: Json, coordinates: Json)
    requires
        has_coordinates(geometry, coordinates),
    ensures
        is_typed(geometry, "Point"@) ==> {
            &&& geometry_lines(geometry).len() == 1
            &&& geometry_lines(geometry)[0].len() == 1
            &&& stands_at(geometry_lines(geometry)[0][0], coordinates)
        },
        is_typed(geometry, "LineString"@) || is_typed(geometry, "MultiPoint"@) ==> {
            &&& geometry_lines(geometry).len() == 1
            &&& stand_along(geometry_lines(geometry)[0], coordinates)
        },
        is_typed(geometry, "Polygon"@) || is_typed(geometry, "MultiLineString"@) ==> {
            match coordinates {
                Json::Array(list) => {
                    &&& geometry_lines(geometry).len() == list.len()
                    &&& forall|i: int|
                        0 <= i < list.len() ==> stand_along(
                            #[trigger] geometry_lines(geometry)[i],
                            list[i],
                        )
                },
                _ => geometry_lines(geometry).len() == 0,
            }
        },
        kind_of(geometry) is Unknown ==> geometry_lines(geometry).len() == 0,
{
    lemma_kind_is_the_type(geometry);
    lemma_position_stands(coordinates);
    lemma_line_stands(coordinates);
    if let Json::Array(list) = coordinates {
        assert forall|i: int| 0 <= i < list.len() implies stand_along(line(#[trigger] list[i]), list[i]) by {
            lemma_line_stands(list[i]);
        }
    }
}

/// How many rings stand before polygon `i`.
pub open spec fn rings_before(polygons: Seq<Json>, i: int) -> int
    decreases i,
{
    if i <= 0 {
        0
    } else {
        rings_before(polygons, i - 1) + match polygons[i - 1] {
            Json::Array(rings) => rings.len() as int,
            _ => 0,
        }
    }
}

proof fn lemma_all_rings_stand(polygons: Seq<Json>, i: int, j: int)
    requires
        0 <= i < polygons.len(),
        polygons[i] is Array,
        0 <= j < polygons[i]->Array_0.len(),
    ensures
        0 <= rings_before(polygons, i),
        rings_before(polygons, i) + j < all_rings(polygons).len(),
        stand_along(all_rings(polygons)[rings_before(polygons, i) + j], polygons[i]->Array_0[j]),
    decreases polygons.len(),
{
    let n = polygons.len() - 1;
    let front = polygons.drop_last();
    lemma_all_rings_count(front);
    lemma_rings_before_prefix(polygons, n);
    lemma_rings_before_prefix(polygons, i);
    lemma_rings_before_positive(polygons, i);
    if i < n {
        assert(front[i] == polygons[i]);
        lemma_all_rings_stand(front, i, j);
    } else {
        lemma_line_stands(polygons[i]->Array_0[j]);
    }
}

proof fn lemma_rings_before_positive(polygons: Seq<Json>, i: int)
    ensures
        0 <= rings_before(polygons, i),
    decreases i,
{
    if i > 0 {
        lemma_rings_before_positive(polygons, i - 1);
    }
}

proof fn lemma_rings_before_prefix(polygons: Seq<Json>, i: int)
    requires
        polygons.len() > 0,
        i < polygons.len(),
    ensures
        rings_before(polygons, i) == rings_before(polygons.drop_last(), i),
    decreases i,
{
    if i > 0 {
        lemma_rings_before_prefix(polygons, i - 1);
        assert(polygons.drop_last()[i - 1] == polygons[i - 1]);
    }
}

proof fn lemma_all_rings_count(polygons: Seq<Json>)
    ensures
        all_rings(polygons).len() == rings_before(polygons, polygons.len() as int),
    decreases polygons.len(),
{
    if polygons.len() > 0 {
        lemma_all_rings_count(polygons.drop_last());
        lemma_rings_before_prefix(polygons, polygons.len() - 1);
    }
}

/// Several polygons are read whole: the rings of the first, then those of the
/// second, and so on, every ring with every position.
pub proof fn lemma_polygons_are_read_whole(geometry: Json, coordinates: Json)
    requires
        has_coordinates(geometry, coordinates),
        is_typed(geometry, "MultiPolygon"@),
    ensures
        match coordinates {
            Json::Array(polygons) => {
                &&& geometry_lines(geometry).len() == rings_before(polygons, polygons.len() as int)
                &&& forall|i: int, j: int|
                    0 <= i < polygons.len() && polygons[i] is Array && 0 <= j
                        < polygons[i]->Array_0.len() ==> stand_along(
                        geometry_lines(geometry)[rings_before(polygons, i) + j],
                        #[trigger] polygons[i]->Array_0[j],
                    )
            },
            _ => geometry_lines(geometry).len() == 0,
        },
{
    lemma_kind_is_the_type(geometry);
    if let Json::Array(polygons) = coordinates {
        lemma_all_rings_count(polygons);
        assert forall|i: int, j: int|
            0 <= i < polygons.len() && polygons[i] is Array && 0 <= j
                < polygons[i]->Array_0.len() implies stand_along(
            geometry_lines(geometry)[rings_before(polygons, i) + j],
            #[trigger] polygons[i]->Array_0[j],
        ) by {
            lemma_all_rings_stand(polygons, i, j);
        }
    }
}

/// A JSON position has two numbers.
pub open spec fn is_full(json: Json) -> bool {
    match json {
        Json::Array(list) => list.len() >= 2 && match (list[0], list[1]) {
            (Json::Number(x), Json::Number(y)) => number_bits(x) is Some && number_bits(y) is Some,
            _ => false,
        },
        _ => false,
    }
}

/// A JSON line has two positions or more, each with two numbers.
pub open spec fn is_full_line(json: Json) -> bool {
    json matches Json::Array(list) && list.len() >= 2 && forall|j: int|
        0 <= j < list.len() ==> is_full(#[trigger] list[j])
}

/// JSON lines are all such lines.
pub open spec fn are_full_lines(list: Seq<Json>) -> bool {
    forall|i: int| 0 <= i < list.len() ==> is_full_line(#[trigger] list[i])
}

/// A JSON polygon has a ring, and all its rings are such lines.
pub open spec fn is_full_polygon(json: Json) -> bool {
    json matches Json::Array(rings) && rings.len() > 0 && are_full_lines(rings)
}

proof fn lemma_full_positions_are_all(list: Seq<Json>)
    requires
        forall|j: int| 0 <= j < list.len() ==> is_full(#[trigger] list[j]),
    ensures
        full_positions(list) == line(Json::Array(list)),
    decreases list.len(),
{
    let whole = line(Json::Array(list));
    if list.len() == 0 {
        assert(full_positions(list) =~= whole);
    } else {
        let front = list.drop_last();
        assert forall|j: int| 0 <= j < front.len() implies is_full(#[trigger] front[j]) by {
            assert(front[j] == list[j]);
        }
        lemma_full_positions_are_all(front);
        assert(is_full(list[list.len() - 1]));
        assert(whole =~= line(Json::Array(front)).push(position(list.last())));
    }
}

proof fn lemma_full_lines_are_all(list: Seq<Json>)
    requires
        are_full_lines(list),
    ensures
        full_lines(list) == lines(list),
    decreases list.len(),
{
    if list.len() == 0 {
        assert(full_lines(list) =~= lines(list));
    } else {
        let front = list.drop_last();
        assert forall|i: int| 0 <= i < front.len() implies is_full_line(#[trigger] front[i]) by {
            assert(front[i] == list[i]);
        }
        lemma_full_lines_are_all(front);
        let last = list.last();
        assert(is_full_line(list[list.len() - 1]));
        lemma_full_positions_are_all(last->Array_0);
        assert(lines(list) =~= lines(front).push(line(last)));
    }
}

proof fn lemma_full_polygon_is_all(json: Json)
    requires
        is_full_polygon(json),
    ensures
        full_polygon(json) == Some(lines(json->Array_0)),
{
    let rings = json->Array_0;
    assert(is_full_line(rings[0]));
    lemma_full_positions_are_all(rings[0]->Array_0);
    let rest = rings.skip(1);
    assert forall|i: int| 0 <= i < rest.len() implies is_full_line(#[trigger] rest[i]) by {
        assert(rest[i] == rings[i + 1]);
    }
    lemma_full_lines_are_all(rest);
    assert(seq![line(rings[0])] + lines(rest) =~= lines(rings));
}

proof fn lemma_full_polygons_are_all(list: Seq<Json>)
    requires
        forall|i: int| 0 <= i < list.len() ==> is_full_polygon(#[trigger] list[i]),
    ensures
        full_polygons(list) == all_rings(list),
    decreases list.len(),
{
    if list.len() > 0 {
        let front = list.drop_last();
        assert forall|i: int| 0 <= i < front.len() implies is_full_polygon(#[trigger] front[i]) by {
            assert(front[i] == list[i]);
        }
        lemma_full_polygons_are_all(front);
        assert(is_full_polygon(list[list.len() - 1]));
        lemma_full_polygon_is_all(list.last());
    }
}

/// Nothing is lost on the way to simplification: where every position has two
/// numbers, every line two positions and every polygon a ring, the lines to simplify
/// are all lines of the geometry. Points are not simplified.
pub proof fn lemma_simplification_loses_nothing(geometry: Json, coordinates: Json)
    requires
        field(geometry, "coordinates"@) == Some(coordinates),
    ensures
        is_typed(geometry, "LineString"@) && is_full_line(coordinates) ==> simplifiable(geometry)
            == Some(geometry_lines(geometry)),
        is_typed(geometry, "MultiLineString"@) && coordinates is Array && are_full_lines(
            coordinates->Array_0,
        ) ==> simplifiable(geometry) == Some(geometry_lines(geometry)),
        is_typed(geometry, "Polygon"@) && is_full_polygon(coordinates) ==> simplifiable(geometry)
            == Some(geometry_lines(geometry)),
        is_typed(geometry, "MultiPolygon"@) && coordinates is Array && (forall|i: int|
            0 <= i < coordinates->Array_0.len() ==> is_full_polygon(
                #[trigger] coordinates->Array_0[i],
            )) ==> simplifiable(geometry) == Some(geometry_lines(geometry)),
        is_typed(geometry, "Point"@) || is_typed(geometry, "MultiPoint"@) ==> simplifiable(geometry)
            is None,
{
    lemma_kind_is_the_type(geometry);
    if let Json::Array(list) = coordinates {
        if is_typed(geometry, "LineString"@) && is_full_line(coordinates) {
            lemma_full_positions_are_all(list);
        }
        if are_full_lines(list) {
            lemma_full_lines_are_all(list);
        }
        if is_full_polygon(coordinates) {
            lemma_full_polygon_is_all(coordinates);
        }
        if forall|i: int| 0 <= i < list.len() ==> is_full_polygon(#[trigger] list[i]) {
            lemma_full_polygons_are_all(list);
        }
    }
}

/// Positions are gathered one by one: those of two lists are those of the first and
/// then those of the second, and a single position counts where it has two numbers.
pub proof fn lemma_full_positions_are_gathered(a: Seq<Json>, b: Seq<Json>, json: Json)
    ensures
        full_positions(a + b) == full_positions(a) + full_positions(b),
        is_full(json) ==> full_positions(seq![json]).len() == 1 && stands_at(
            full_positions(seq![json])[0],
            json,
        ),
        !is_full(json) ==> full_positions(seq![json]).len() == 0,
    decreases b.len(),
{
    assert(seq![json].drop_last() =~= Seq::<Json>::empty());
    assert(full_positions(Seq::<Json>::empty()) == Seq::<LonLat>::empty());
    if b.len() == 0 {
        assert(a + b =~= a);
        assert(full_positions(a) + full_positions(b) =~= full_positions(a));
    } else {
        lemma_full_positions_are_gathered(a, b.drop_last(), json);
        assert((a + b).drop_last() =~= a + b.drop_last());
        assert(full_positions(a + b) =~= full_positions(a) + full_positions(b));
    }
}

/// Lines are gathered one by one, a line counts where two of its positions do, and
/// polygons are gathered one by one, each with its outer ring first.
pub proof fn lemma_full_lines_are_gathered(a: Seq<Json>, b: Seq<Json>, json: Json)
    ensures
        full_lines(a + b) == full_lines(a) + full_lines(b),
        full_polygons(a + b) == full_polygons(a) + full_polygons(b),
        full_lines(seq![json]) == match json {
            Json::Array(list) => if full_positions(list).len() >= 2 {
                seq![full_positions(list)]
            } else {
                Seq::empty()
            },
            _ => Seq::empty(),
        },
        full_polygons(seq![json]) == match json {
            Json::Array(list) => if list.len() > 0 && full_lines(seq![list[0]]).len() > 0 {
                full_lines(list)
            } else {
                Seq::empty()
            },
            _ => Seq::empty(),
        },
    decreases b.len(),
{
    let none = Seq::<Json>::empty();
    assert(seq![json].drop_last() =~= none);
    assert(full_lines(none) == Seq::<Seq<LonLat>>::empty());
    assert(full_polygons(none) == Seq::<Seq<LonLat>>::empty());
    assert(full_lines(seq![json]) =~= match json {
        Json::Array(list) => if full_positions(list).len() >= 2 {
            seq![full_positions(list)]
        } else {
            Seq::empty()
        },
        _ => Seq::empty(),
    });
    if let Json::Array(list) = json {
        if list.len() > 0 {
            lemma_full_line_alone(list[0]);
            lemma_full_lines_append(seq![list[0]], list.skip(1));
            assert(seq![list[0]] + list.skip(1) =~= list);
            assert(full_polygons(seq![json]) =~= match full_polygon(json) {
                Some(rings) => rings,
                None => Seq::empty(),
            });
        }
    }
    lemma_full_lines_append(a, b);
    if b.len() == 0 {
        assert(a + b =~= a);
        assert(full_polygons(a) + full_polygons(b) =~= full_polygons(a));
    } else {
        lemma_full_lines_are_gathered(a, b.drop_last(), json);
        assert((a + b).drop_last() =~= a + b.drop_last());
        assert(full_polygons(a + b) =~= full_polygons(a) + full_polygons(b));
    }
}

proof fn lemma_full_line_alone(json: Json)
    ensures
        full_lines(seq![json]) == match full_line(json) {
            Some(points) => seq![points],
            None => Seq::empty(),
        },
{
    assert(seq![json].drop_last() =~= Seq::<Json>::empty());
    assert(full_lines(Seq::<Json>::empty()) == Seq::<Seq<LonLat>>::empty());
    assert(full_lines(seq![json]) =~= match full_line(json) {
        Some(points) => seq![points],
        None => Seq::empty(),
    });
}

proof fn lemma_full_lines_append(a: Seq<Json>, b: Seq<Json>)
    ensures
        full_lines(a + b) == full_lines(a) + full_lines(b),
    decreases b.len(),
{
    if b.len() == 0 {
        assert(a + b =~= a);
        assert(full_lines(a) + full_lines(b) =~= full_lines(a));
    } else {
        lemma_full_lines_append(a, b.drop_last());
        assert((a + b).drop_last() =~= a + b.drop_last());
        assert(full_lines(a + b) =~= full_lines(a) + full_lines(b));
    }
}

/// A signed difference as it is written: with the sign in the lowest bit.
pub open spec fn signed_last(n: int) -> int {
    if n < 0 {
        -2 * n - 1
    } else {
        n + n
    }
}

proof fn lemma_steps_at(points: Seq<TileXy>, start: TileXy, from: int, end: int, i: int)
    requires
        0 <= from <= i < end <= points.len(),
        forall|k: int| from < k < end ==> #[trigger] step_fits_at(points, k),
        step_fits(start, points[from]),
    ensures
        ({
            let words = steps(points, start, from, end);
            let before = if i == from {
                start
            } else {
                points[i - 1]
            };
            &&& words.len() == 2 * (end - from)
            &&& words[2 * (i - from)] == signed_last(points[i].x - before.x)
            &&& words[2 * (i - from) + 1] == signed_last(points[i].y - before.y)
        }),
    decreases end - from,
{
    if i < end - 1 {
        lemma_steps_at(points, start, from, end - 1, i);
    } else {
        if from < end - 1 {
            lemma_steps_at(points, start, from, end - 1, from);
            assert(step_fits_at(points, i));
        } else {
            assert(steps(points, start, from, end - 1).len() == 0);
        }
    }
}

/// The commands for a line: to move once, the first position from the origin, then
/// to draw as often as there are further positions, each of them from the one before.
/// A ring leaves its last position out and is closed by a command of its own. A
/// command's word is its number and eight times how often it is done.
pub proof fn lemma_line_is_written_step_by_step(points: Seq<TileXy>, close: bool, i: int)
    requires
        2 <= points.len() < 0x2000_0000,
        line_fits(points),
        1 <= i < points.len() - if close {
            1int
        } else {
            0
        },
    ensures
        ({
            let words = line_commands(points, close);
            let end = points.len() - if close {
                1int
            } else {
                0
            };
            &&& words.len() == 2 * end + 2 + if close {
                1int
            } else {
                0
            }
            &&& words[0] == 1 + 8 * 1
            &&& words[1] == signed_last(points[0].x as int)
            &&& words[2] == signed_last(points[0].y as int)
            &&& words[3] == 2 + 8 * (end - 1)
            &&& words[2 * i + 2] == signed_last(points[i].x - points[i - 1].x)
            &&& words[2 * i + 3] == signed_last(points[i].y - points[i - 1].y)
            &&& close ==> words.last() == 7 + 8 * 1
        }),
{
    let words = line_commands(points, close);
    let end = points.len() - if close {
        1int
    } else {
        0
    };
    assert forall|k: int| 1 < k < end implies #[trigger] step_fits_at(points, k) by {}
    assert(step_fits_at(points, 1));
    lemma_steps_at(points, points[0], 1, end, i);
    let walk = steps(points, points[0], 1, end);
    assert(words[2 * i + 2] == walk[2 * (i - 1)]);
    assert(words[2 * i + 3] == walk[2 * (i - 1) + 1]);
}

/// Lines and rings are written one after the other, each by itself.
pub proof fn lemma_lines_are_written_one_by_one(
    a: Seq<Seq<TileXy>>,
    b: Seq<Seq<TileXy>>,
    points: Seq<TileXy>,
    close: bool,
)
    ensures
        lines_commands(a + b, close) == lines_commands(a, close) + lines_commands(b, close),
        lines_commands(seq![points], close) == line_commands(points, close),
        points.len() < 2 ==> line_commands(points, close).len() == 0,
    decreases b.len(),
{
    assert(seq![points].drop_last() =~= Seq::<Seq<TileXy>>::empty());
    assert(lines_commands(Seq::empty(), close) =~= Seq::<u32>::empty());
    assert(lines_commands(seq![points], close) =~= line_commands(points, close));
    if b.len() == 0 {
        assert(a + b =~= a);
        assert(lines_commands(a, close) + lines_commands(b, close) =~= lines_commands(a, close));
    } else {
        lemma_lines_are_written_one_by_one(a, b.drop_last(), points, close);
        assert((a + b).drop_last() =~= a + b.drop_last());
        assert((a + b).last() == b.last());
        assert(lines_commands(a + b, close) =~= lines_commands(a, close) + lines_commands(b, close));
    }
}

/// Several points are written as one command to move, as often as there are points,
/// each of them from the one before and the first from the origin.
pub proof fn lemma_points_are_written_step_by_step(points: Seq<TileXy>, i: int)
    requires
        0 <= i < points.len() < 0x2000_0000,
        line_fits(points),
    ensures
        ({
            let words = points_commands(points);
            let x = if i == 0 {
                0
            } else {
                points[i - 1].x as int
            };
            let y = if i == 0 {
                0
            } else {
                points[i - 1].y as int
            };
            &&& words.len() == 2 * points.len() + 1
            &&& words[0] == 1 + 8 * points.len()
            &&& words[2 * i + 1] == signed_last(points[i].x - x)
            &&& words[2 * i + 2] == signed_last(points[i].y - y)
        }),
{
    let n = points.len() as int;
    assert forall|k: int| 0 < k < n implies #[trigger] step_fits_at(points, k) by {}
    lemma_steps_at(points, origin(), 0, n, i);
    let walk = steps(points, origin(), 0, n);
    assert(points_commands(points)[2 * i + 1] == walk[2 * i]);
    assert(points_commands(points)[2 * i + 2] == walk[2 * i + 1]);
}

/// The contents of nested vectors are theirs, one for each and in their order.
pub proof fn lemma_nested_are_of_the_vectors<T>(rings: Seq<Vec<T>>)
    ensures
        nested(rings).len() == rings.len(),
        forall|i: int| 0 <= i < rings.len() ==> #[trigger] nested(rings)[i] == rings[i]@,
{
}

/// A geometry can be written where, in each of its rings, no coordinate is further
/// from the one before than a signed number of 32 bits can say.
pub proof fn lemma_steps_that_can_be_written(rings: Seq<Seq<TileXy>>)
    ensures
        shape_fits(rings) <==> forall|r: int, i: int|
            #![trigger rings[r][i]]
            0 <= r < rings.len() && 0 < i < rings[r].len() ==> -0x8000_0000 <= rings[r][i].x
                - rings[r][i - 1].x < 0x8000_0000 && -0x8000_0000 <= rings[r][i].y - rings[r][i
                - 1].y < 0x8000_0000,
{
    if shape_fits(rings) {
        assert forall|r: int, i: int|
            #![trigger rings[r][i]]
            0 <= r < rings.len() && 0 < i < rings[r].len() implies -0x8000_0000 <= rings[r][i].x
            - rings[r][i - 1].x < 0x8000_0000 && -0x8000_0000 <= rings[r][i].y - rings[r][i - 1].y
            < 0x8000_0000 by {
            assert(line_fits(rings[r]));
            assert(step_fits_at(rings[r], i));
        }
    }
    if forall|r: int, i: int|
        #![trigger rings[r][i]]
        0 <= r < rings.len() && 0 < i < rings[r].len() ==> -0x8000_0000 <= rings[r][i].x
            - rings[r][i - 1].x < 0x8000_0000 && -0x8000_0000 <= rings[r][i].y - rings[r][i - 1].y
            < 0x8000_0000 {
        assert forall|r: int| 0 <= r < rings.len() implies line_fits(#[trigger] rings[r]) by {
            assert forall|i: int| 0 < i < rings[r].len() implies #[trigger] step_fits_at(
                rings[r],
                i,
            ) by {
                let p = rings[r][i];
            }
        }
    }
}

} // verus!
