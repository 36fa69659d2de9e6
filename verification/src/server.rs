//! Serving tiles: what a request is answered.
use crate::config::{layer_names, AppConfig, LayerConfig, ServeConfig, SourceConfig};
use crate::digest::{hex_digit, hex_of, hex_value, lemma_hex_spells_the_bytes, sha256, sha256_of};
use crate::pmtiles::gzip::{is_gzipped, looks_gzipped};
use crate::text::{
    copied, decimal, decimal_text, has_part, joined, lemma_has_part, same_text, texts,
};
use vstd::prelude::*;

verus! {

/// Bytes in hexadecimal: two lower case digits each.
pub fn to_hex(bytes: &[u8]) -> (text: String)
    ensures
        text@ == hex_of(bytes@),
{
    let mut text: String = String::new();
    assert(hex_of(bytes@).take(0) =~= Seq::<char>::empty());
    for i in 0..bytes.len()
        invariant
            text@ == hex_of(bytes@).take(2 * i),
    {
        let ghost before = text@;
        text.push(digit_of(bytes[i] / 16));
        text.push(digit_of(bytes[i] % 16));
        assert(text@ =~= hex_of(bytes@).take(2 * (i + 1)));
    }
    assert(hex_of(bytes@).take((2 * bytes@.len()) as int) =~= hex_of(bytes@));
    text
}

fn digit_of(d: u8) -> (c: char)
    requires
        d < 16,
    ensures
        c == hex_digit(d as int),
{
    if d < 10 {
        (48 + d) as char
    } else {
        (87 + d) as char
    }
}

/// The entity tag for a digest: its first eight bytes in hexadecimal, quoted.
pub open spec fn etag_for(hash: Seq<u8>) -> Seq<char> {
    seq!['"'] + hex_of(hash.take(8)) + seq!['"']
}

/// The entity tag of a tile.
pub open spec fn etag_of(data: Seq<u8>) -> Seq<char> {
    etag_for(sha256_of(data))
}

/// The entity tag for a digest.
pub fn etag_text(hash: &[u8; 32]) -> (etag: String)
    ensures
        etag@ == etag_for(hash@),
{
    let mut etag: String = String::new();
    etag.push('"');
    let first: &[u8] = vstd::slice::slice_subrange(hash.as_slice(), 0, 8);
    assert(first@ =~= hash@.take(8));
    etag.append(to_hex(first).as_str());
    etag.push('"');
    assert(etag@ =~= etag_for(hash@));
    etag
}

/// What reading a requested tile gave.
#[derive(Debug)]
pub enum TileRead {
    /// There is no source of that name.
    UnknownSource,
    /// The store could not be read.
    Failed,
    /// The tile, if the store has it.
    Read(Option<Vec<u8>>),
}

/// The answer to a tile request.
#[derive(Debug)]
pub enum TileReply {
    SourceNotFound,
    ReadFailed,
    /// The store has no such tile.
    Empty,
    /// The client has the tile already.
    NotModified { etag: String },
    Tile { etag: String, gzipped: bool, data: Vec<u8> },
}

/// What an answer says.
pub enum ReplyModel {
    SourceNotFound,
    ReadFailed,
    Empty,
    NotModified { etag: Seq<char> },
    Tile { etag: Seq<char>, gzipped: bool, data: Seq<u8> },
}

impl TileReply {
    pub open spec fn model(self) -> ReplyModel {
        match self {
            TileReply::SourceNotFound => ReplyModel::SourceNotFound,
            TileReply::ReadFailed => ReplyModel::ReadFailed,
            TileReply::Empty => ReplyModel::Empty,
            TileReply::NotModified { etag } => ReplyModel::NotModified { etag: etag@ },
            TileReply::Tile { etag, gzipped, data } => ReplyModel::Tile {
                etag: etag@,
                gzipped,
                data: data@,
            },
        }
    }

    /// The status code.
    pub fn status(&self) -> (code: u16)
        ensures
            code == (match self {
                TileReply::SourceNotFound => 404u16,
                TileReply::ReadFailed => 500u16,
                TileReply::Empty => 204u16,
                TileReply::NotModified { etag: _ } => 304u16,
                TileReply::Tile { etag: _, gzipped: _, data: _ } => 200u16,
            }),
    {
        match self {
            TileReply::SourceNotFound => 404,
            TileReply::ReadFailed => 500,
            TileReply::Empty => 204,
            TileReply::NotModified { etag: _ } => 304,
            TileReply::Tile { etag: _, gzipped: _, data: _ } => 200,
        }
    }

    /// The label under which the request is counted.
    pub fn result_label(&self) -> (label: &'static str)
        ensures
            label@ == (match self {
                TileReply::SourceNotFound => "source_not_found"@,
                TileReply::ReadFailed => "error"@,
                TileReply::Empty => "empty"@,
                TileReply::NotModified { etag: _ } => "not_modified"@,
                TileReply::Tile { etag: _, gzipped: _, data: _ } => "hit"@,
            }),
    {
        match self {
            TileReply::SourceNotFound => "source_not_found",
            TileReply::ReadFailed => "error",
            TileReply::Empty => "empty",
            TileReply::NotModified { etag: _ } => "not_modified",
            TileReply::Tile { etag: _, gzipped: _, data: _ } => "hit",
        }
    }

    /// The headers. The encoding is stated only where the stored bytes are
    /// gzipped.
    pub fn headers(&self) -> (headers: Vec<(String, String)>)
        ensures
            header_texts(headers@) == reply_headers(self.model()),
    {
        let mut headers: Vec<(String, String)> = Vec::new();
        match self {
            TileReply::NotModified { etag } => {
                headers.push(("etag".to_owned(), etag.clone()));
            },
            TileReply::Tile { etag, gzipped, data: _ } => {
                headers.push(("content-type".to_owned(), "application/x-protobuf".to_owned()));
                if *gzipped {
                    headers.push(("content-encoding".to_owned(), "gzip".to_owned()));
                }
                headers.push(("etag".to_owned(), etag.clone()));
                headers.push(("cache-control".to_owned(), "public, max-age=300".to_owned()));
            },
            _ => {},
        }
        assert(header_texts(headers@) =~= reply_headers(self.model()));
        headers
    }
}

/// The texts of headers.
pub open spec fn header_texts(headers: Seq<(String, String)>) -> Seq<(Seq<char>, Seq<char>)> {
    Seq::new(headers.len(), |i: int| (headers[i].0@, headers[i].1@))
}

/// The headers of an answer.
pub open spec fn reply_headers(reply: ReplyModel) -> Seq<(Seq<char>, Seq<char>)> {
    match reply {
        ReplyModel::NotModified { etag } => seq![("etag"@, etag)],
        ReplyModel::Tile { etag, gzipped, data: _ } => seq![
            ("content-type"@, "application/x-protobuf"@),
        ] + (if gzipped {
            seq![("content-encoding"@, "gzip"@)]
        } else {
            Seq::empty()
        }) + seq![("etag"@, etag), ("cache-control"@, "public, max-age=300"@)],
        _ => Seq::empty(),
    }
}

/// A conditional request's tag matches a tile's: it is the same, or the one that
/// matches any.
pub open spec fn tag_matches(if_none_match: Option<Seq<char>>, etag: Seq<char>) -> bool {
    if_none_match == Some(etag) || if_none_match == Some("*"@)
}

/// The answer for a tile with an entity tag.
pub open spec fn tagged_reply(
    data: Seq<u8>,
    etag: Seq<char>,
    if_none_match: Option<Seq<char>>,
) -> ReplyModel {
    if tag_matches(if_none_match, etag) {
        ReplyModel::NotModified { etag }
    } else {
        ReplyModel::Tile { etag, gzipped: looks_gzipped(data), data }
    }
}

/// The answer for what was read.
pub open spec fn reply_to(read: TileRead, if_none_match: Option<Seq<char>>) -> ReplyModel {
    match read {
        TileRead::UnknownSource => ReplyModel::SourceNotFound,
        TileRead::Failed => ReplyModel::ReadFailed,
        TileRead::Read(None) => ReplyModel::Empty,
        TileRead::Read(Some(data)) => tagged_reply(data@, etag_of(data@), if_none_match),
    }
}

/// The text behind an optional reference.
pub open spec fn text_ref(s: Option<&str>) -> Option<Seq<char>> {
    match s {
        Some(s) => Some(s@),
        None => None,
    }
}

/// Answer for a tile, given its entity tag.
pub fn reply_with_tag(data: Vec<u8>, etag: String, if_none_match: Option<&str>) -> (reply:
    TileReply)
    ensures
        reply.model() == tagged_reply(data@, etag@, text_ref(if_none_match)),
{
    if let Some(tag) = if_none_match {
        if same_text(tag, etag.as_str()) || same_text(tag, "*") {
            return TileReply::NotModified { etag };
        }
    }
    let gzipped: bool = is_gzipped(data.as_slice());
    TileReply::Tile { etag, gzipped, data }
}

/// Answer a tile request, given what was read and the request's tag.
pub fn tile_reply(read: TileRead, if_none_match: Option<&str>) -> (reply: TileReply)
    ensures
        reply.model() == reply_to(read, text_ref(if_none_match)),
{
    match read {
        TileRead::UnknownSource => TileReply::SourceNotFound,
        TileRead::Failed => TileReply::ReadFailed,
        TileRead::Read(None) => TileReply::Empty,
        TileRead::Read(Some(data)) => {
            let etag: String = etag_text(&sha256(data.as_slice()));
            reply_with_tag(data, etag, if_none_match)
        },
    }
}

/// A client that asks again with the tag it was given is told that nothing has
/// changed, and one that asks without a tag is always sent the tile.
pub proof fn lemma_conditional_requests(data: Vec<u8>)
    ensures
        reply_to(TileRead::Read(Some(data)), Some(etag_of(data@))) == (ReplyModel::NotModified {
            etag: etag_of(data@),
        }),
        reply_to(TileRead::Read(Some(data)), None) == (ReplyModel::Tile {
            etag: etag_of(data@),
            gzipped: looks_gzipped(data@),
            data: data@,
        }),
{
}

/// A layer in a tileset's description.
#[derive(Debug)]
pub struct TileJsonLayer {
    pub id: String,
    pub fields: Vec<String>,
}

/// A tileset's description.
#[derive(Debug)]
pub struct TileJson {
    pub name: String,
    pub tiles: String,
    pub minzoom: u8,
    pub maxzoom: u8,
    pub vector_layers: Vec<TileJsonLayer>,
}

/// The names of the layers in a description.
pub open spec fn layer_ids(layers: Seq<TileJsonLayer>) -> Seq<Seq<char>> {
    Seq::new(layers.len(), |i: int| layers[i].id@)
}

/// The fields of the layers in a description.
pub open spec fn layer_fields(layers: Seq<TileJsonLayer>) -> Seq<Seq<Seq<char>>> {
    Seq::new(layers.len(), |i: int| texts(layers[i].fields@))
}

/// The properties of a layer.
pub open spec fn property_names(layer: LayerConfig) -> Seq<Seq<char>> {
    match layer.properties {
        Some(names) => texts(names@),
        None => Seq::empty(),
    }
}

/// The properties of some layers, repeated for each companion.
pub open spec fn all_fields(layers: Seq<LayerConfig>) -> Seq<Seq<Seq<char>>>
    decreases layers.len(),
{
    if layers.len() == 0 {
        Seq::empty()
    } else {
        let layer = layers.last();
        all_fields(layers.drop_last()) + Seq::new(
            layer.layer_names().len(),
            |i: int| property_names(layer),
        )
    }
}

/// The first source with a name.
pub open spec fn first_named(sources: Seq<SourceConfig>, name: Seq<char>, i: int) -> bool {
    &&& 0 <= i < sources.len()
    &&& sources[i].name@ == name
    &&& forall|k: int| 0 <= k < i ==> (#[trigger] sources[k]).name@ != name
}

fn fields_of(layer: &LayerConfig) -> (fields: Vec<String>)
    ensures
        texts(fields@) == property_names(*layer),
{
    match &layer.properties {
        Some(names) => copied(names),
        None => {
            let fields: Vec<String> = Vec::new();
            assert(texts(fields@) =~= Seq::empty());
            fields
        },
    }
}

/// The address pattern of a source's tiles.
pub open spec fn tiles_url(serve: ServeConfig, name: Seq<char>) -> Seq<char> {
    "http://"@ + serve.spec_host() + ":"@ + decimal(serve.spec_port() as nat) + "/"@ + name
        + "/{z}/{x}/{y}.pbf"@
}

/// Describe a source; none where there is no source of that name.
pub fn tilejson(config: &AppConfig, source_name: &str) -> (description: Option<TileJson>)
    ensures
        match description {
            None => forall|i: int|
                0 <= i < config.sources@.len() ==> (#[trigger] config.sources@[i]).name@
                    != source_name@,
            Some(d) => exists|i: int|
                {
                    &&& #[trigger] first_named(config.sources@, source_name@, i)
                    &&& d.name@ == source_name@
                    &&& d.tiles@ == tiles_url(config.serve, source_name@)
                    &&& d.minzoom == config.sources@[i].min_zoom
                    &&& d.maxzoom == config.sources@[i].max_zoom
                    &&& layer_ids(d.vector_layers@) == layer_names(config.sources@[i].layers@)
                    &&& layer_fields(d.vector_layers@) == all_fields(config.sources@[i].layers@)
                },
        },
{
    let mut i: usize = 0;
    while i < config.sources.len() && !same_text(config.sources[i].name.as_str(), source_name)
        invariant
            i <= config.sources@.len(),
            forall|k: int| 0 <= k < i ==> (#[trigger] config.sources@[k]).name@ != source_name@,
        decreases config.sources@.len() - i,
    {
        i = i + 1;
    }
    if i >= config.sources.len() {
        return None;
    }
    let source: &SourceConfig = &config.sources[i];
    let (host, port): (String, u16) = config.serve.address();
    let mut tiles: String = joined("http://", host.as_str());
    tiles.append(":");
    tiles.append(decimal_text(port as u64).as_str());
    tiles.append("/");
    tiles.append(source.name.as_str());
    tiles.append("/{z}/{x}/{y}.pbf");
    let vector_layers: Vec<TileJsonLayer> = describe_layers(&source.layers);
    assert(first_named(config.sources@, source_name@, i as int));
    Some(
        TileJson {
            name: source.name.clone(),
            tiles,
            minzoom: source.min_zoom,
            maxzoom: source.max_zoom,
            vector_layers,
        },
    )
}

fn describe_layers(layers: &Vec<LayerConfig>) -> (described: Vec<TileJsonLayer>)
    ensures
        layer_ids(described@) == layer_names(layers@),
        layer_fields(described@) == all_fields(layers@),
{
    let mut described: Vec<TileJsonLayer> = Vec::new();
    proof {
        assert(layers@.take(0) =~= Seq::<LayerConfig>::empty());
        assert(layer_ids(described@) =~= layer_names(layers@.take(0)));
        assert(layer_fields(described@) =~= all_fields(layers@.take(0)));
    }
    for i in 0..layers.len()
        invariant
            layer_ids(described@) == layer_names(layers@.take(i as int)),
            layer_fields(described@) == all_fields(layers@.take(i as int)),
    {
        let ghost ids = layer_ids(described@);
        let ghost fields = layer_fields(described@);
        proof {
            assert(layers@.take(i + 1).last() == layers@[i as int]);
            assert(layers@.take(i + 1).drop_last() =~= layers@.take(i as int));
        }
        let layer: &LayerConfig = &layers[i];
        described.push(TileJsonLayer { id: layer.name.clone(), fields: fields_of(layer) });
        if layer.generate_label_points {
            described.push(
                TileJsonLayer {
                    id: joined(layer.name.as_str(), "_labels"),
                    fields: fields_of(layer),
                },
            );
        }
        if layer.generate_boundary_lines {
            described.push(
                TileJsonLayer {
                    id: joined(layer.name.as_str(), "_boundary"),
                    fields: fields_of(layer),
                },
            );
        }
        proof {
            let names = layer.layer_names();
            assert(layer_ids(described@) =~= ids + names);
            assert(layer_fields(described@) =~= fields + Seq::new(
                names.len(),
                |k: int| property_names(*layer),
            ));
        }
    }
    assert(layers@.take(layers@.len() as int) =~= layers@);
    described
}

/// The origins that may read tiles from a page; none stands for any.
pub fn allowed_origins(config: &ServeConfig) -> (origins: Option<Vec<String>>)
    ensures
        match config.cors_origins {
            Some(list) => if list@.len() > 0 {
                origins is Some && texts(origins->0@) == texts(list@)
            } else {
                origins is None
            },
            None => origins is None,
        },
{
    match &config.cors_origins {
        Some(list) => if list.len() > 0 {
            Some(copied(list))
        } else {
            None
        },
        None => None,
    }
}

/// A tile is withheld only from a client that has it: one that names the tile's own
/// tag, or says that it has any. To any other the stored bytes are sent, with the tag.
pub proof fn lemma_changed_tiles_are_sent(data: Seq<u8>, etag: Seq<char>, tag: Option<Seq<char>>)
    ensures
        tag is None || (tag->0 != etag && tag->0 != "*"@) ==> tagged_reply(data, etag, tag) == (
        ReplyModel::Tile { etag, gzipped: data.len() >= 2 && data[0] == 0x1f && data[1] == 0x8b, data }),
        tag matches Some(t) && (t == etag || t == "*"@) ==> tagged_reply(data, etag, tag) == (
        ReplyModel::NotModified { etag }),
{
}

/// A request is answered by what was read: an unknown source, a failed read and a
/// tile that is not there each in their own way, whatever tag the client names.
pub proof fn lemma_requests_are_answered(read: TileRead, tag: Option<Seq<char>>)
    ensures
        read is UnknownSource <==> reply_to(read, tag) is SourceNotFound,
        read is Failed <==> reply_to(read, tag) is ReadFailed,
        (read matches TileRead::Read(found) && found is None) <==> reply_to(read, tag) is Empty,
        reply_to(read, tag) matches ReplyModel::Tile { etag, gzipped: _, data } ==> {
            &&& read matches TileRead::Read(Some(stored)) && stored@ == data
            &&& etag == etag_of(data)
            &&& tag != Some(etag)
            &&& tag != Some("*"@)
        },
        reply_to(read, tag) matches ReplyModel::NotModified { etag } ==> {
            &&& read matches TileRead::Read(Some(stored)) && etag == etag_of(stored@)
            &&& tag == Some(etag) || tag == Some("*"@)
        },
{
}

/// A tag is the first eight bytes of a digest, each as two hexadecimal digits, in
/// quotes. Digests that differ there have different tags.
pub proof fn lemma_tags_tell_digests_apart(a: Seq<u8>, b: Seq<u8>)
    requires
        a.len() == 32,
        b.len() == 32,
    ensures
        etag_for(a).len() == 18,
        etag_for(a)[0] == '"',
        etag_for(a)[17] == '"',
        etag_for(a) == etag_for(b) <==> a.take(8) == b.take(8),
{
    assert(hex_of(a.take(8)).len() == 16);
    assert(hex_of(b.take(8)).len() == 16);
    if etag_for(a) == etag_for(b) {
        assert forall|i: int| 0 <= i < 8 implies a.take(8)[i] == b.take(8)[i] by {
            assert(etag_for(a)[1 + 2 * i] == hex_of(a.take(8))[2 * i]);
            assert(etag_for(b)[1 + 2 * i] == hex_of(b.take(8))[2 * i]);
            assert(etag_for(a)[2 + 2 * i] == hex_of(a.take(8))[2 * i + 1]);
            assert(etag_for(b)[2 + 2 * i] == hex_of(b.take(8))[2 * i + 1]);
        }
        assert(a.take(8) =~= b.take(8));
    }
}

/// An answer with a tile says what it is, how long it may be kept and by which tag it
/// is known, and that it is gzipped exactly when it is. One without a tile says no
/// more than the tag.
pub proof fn lemma_headers_describe_the_answer(etag: Seq<char>, gzipped: bool, data: Seq<u8>)
    ensures
        ({
            let headers = reply_headers(ReplyModel::Tile { etag, gzipped, data });
            &&& headers.contains(("content-type"@, "application/x-protobuf"@))
            &&& headers.contains(("etag"@, etag))
            &&& headers.contains(("cache-control"@, "public, max-age=300"@))
            &&& headers.contains(("content-encoding"@, "gzip"@)) <==> gzipped
            &&& headers.len() == if gzipped {
                4int
            } else {
                3
            }
        }),
        reply_headers(ReplyModel::NotModified { etag }).len() == 1,
        reply_headers(ReplyModel::NotModified { etag })[0] == ("etag"@, etag),
        reply_headers(ReplyModel::Empty).len() == 0,
        reply_headers(ReplyModel::SourceNotFound).len() == 0,
        reply_headers(ReplyModel::ReadFailed).len() == 0,
{
    reveal_strlit("content-type");
    reveal_strlit("content-encoding");
    reveal_strlit("etag");
    reveal_strlit("cache-control");
    assert("content-type"@.len() == 12 && "content-encoding"@.len() == 16 && "etag"@.len() == 4
        && "cache-control"@.len() == 13);
    let headers = reply_headers(ReplyModel::Tile { etag, gzipped, data });
    assert(headers[0] == ("content-type"@, "application/x-protobuf"@));
    assert(headers[headers.len() - 2] == ("etag"@, etag));
    assert(headers[headers.len() - 1] == ("cache-control"@, "public, max-age=300"@));
    if gzipped {
        assert(headers[1] == ("content-encoding"@, "gzip"@));
    }
}

/// The layers of a description each have the properties of the layer that they come
/// from: those of the first layer and its companions, then those of the others.
pub proof fn lemma_fields_follow_the_layers(
    a: Seq<LayerConfig>,
    b: Seq<LayerConfig>,
    layer: LayerConfig,
)
    ensures
        all_fields(a + b) == all_fields(a) + all_fields(b),
        all_fields(a).len() == layer_names(a).len(),
        all_fields(seq![layer]).len() == 1 + (if layer.generate_label_points {
            1int
        } else {
            0
        }) + (if layer.generate_boundary_lines {
            1int
        } else {
            0
        }),
        forall|k: int|
            0 <= k < all_fields(seq![layer]).len() ==> match layer.properties {
                Some(names) => {
                    &&& (#[trigger] all_fields(seq![layer])[k]).len() == names@.len()
                    &&& forall|i: int|
                        0 <= i < names@.len() ==> all_fields(seq![layer])[k][i] == (
                        #[trigger] names@[i])@
                },
                None => all_fields(seq![layer])[k].len() == 0,
            },
    decreases b.len(),
{
    lemma_fields_count(a);
    assert(seq![layer].drop_last() =~= Seq::<LayerConfig>::empty());
    assert(all_fields(Seq::<LayerConfig>::empty()) == Seq::<Seq<Seq<char>>>::empty());
    assert(all_fields(seq![layer]) =~= Seq::new(
        layer.layer_names().len(),
        |i: int| property_names(layer),
    ));
    if b.len() == 0 {
        assert(a + b =~= a);
        assert(all_fields(a) + all_fields(b) =~= all_fields(a));
    } else {
        lemma_fields_follow_the_layers(a, b.drop_last(), layer);
        assert((a + b).drop_last() =~= a + b.drop_last());
        assert(all_fields(a + b) =~= all_fields(a) + all_fields(b));
    }
}

proof fn lemma_fields_count(layers: Seq<LayerConfig>)
    ensures
        all_fields(layers).len() == layer_names(layers).len(),
    decreases layers.len(),
{
    if layers.len() > 0 {
        lemma_fields_count(layers.drop_last());
    }
}

/// A source's tiles are under its name, at the place of their zoom, column and row.
pub proof fn lemma_tiles_are_under_the_source(serve: ServeConfig, name: Seq<char>)
    ensures
        has_part(tiles_url(serve, name), "/"@ + name + "/{z}/{x}/{y}.pbf"@),
        has_part(
            tiles_url(serve, name),
            "http://"@ + serve.spec_host() + ":"@ + decimal(serve.spec_port() as nat),
        ),
{
    let start = "http://"@ + serve.spec_host() + ":"@ + decimal(serve.spec_port() as nat);
    let end = "/"@ + name + "/{z}/{x}/{y}.pbf"@;
    let none = Seq::<char>::empty();
    assert(tiles_url(serve, name) =~= start + end + none);
    lemma_has_part(start, end, none);
    assert(tiles_url(serve, name) =~= none + start + end);
    lemma_has_part(none, start, end);
}

/// An answer is all that stands in it, and headers and layers are taken one for one.
pub proof fn lemma_answers_are_all_of_themselves(
    reply: TileReply,
    headers: Seq<(String, String)>,
    layers: Seq<TileJsonLayer>,
    tag: Option<&str>,
)
    ensures
        match (reply, reply.model()) {
            (TileReply::SourceNotFound, ReplyModel::SourceNotFound) => true,
            (TileReply::ReadFailed, ReplyModel::ReadFailed) => true,
            (TileReply::Empty, ReplyModel::Empty) => true,
            (TileReply::NotModified { etag }, ReplyModel::NotModified { etag: given }) => given
                == etag@,
            (
                TileReply::Tile { etag, gzipped, data },
                ReplyModel::Tile { etag: given, gzipped: packed, data: sent },
            ) => given == etag@ && packed == gzipped && sent == data@,
            _ => false,
        },
        header_texts(headers).len() == headers.len(),
        forall|i: int|
            0 <= i < headers.len() ==> #[trigger] header_texts(headers)[i] == (
                headers[i].0@,
                headers[i].1@,
            ),
        layer_ids(layers).len() == layers.len(),
        forall|i: int| 0 <= i < layers.len() ==> #[trigger] layer_ids(layers)[i] == layers[i].id@,
        layer_fields(layers).len() == layers.len(),
        forall|i: int|
            0 <= i < layers.len() ==> (#[trigger] layer_fields(layers)[i]).len()
                == layers[i].fields@.len() && forall|k: int|
                0 <= k < layers[i].fields@.len() ==> #[trigger] layer_fields(layers)[i][k]
                    == layers[i].fields@[k]@,
        tag is None <==> text_ref(tag) is None,
        tag is Some ==> text_ref(tag)->0 == tag->0@,
{
}

/// The tag of a tile spells the first eight bytes of the digest of its bytes, two
/// digits for each.
pub proof fn lemma_tag_spells_the_digest(data: Seq<u8>, i: int)
    requires
        0 <= i < 8 <= sha256_of(data).len(),
    ensures
        etag_of(data).len() == 18,
        16 * hex_value(etag_of(data)[2 * i + 1]) + hex_value(etag_of(data)[2 * i + 2]) == sha256_of(
            data,
        )[i],
{
    let lead = sha256_of(data).take(8);
    lemma_hex_spells_the_bytes(lead, i);
    assert(etag_of(data)[2 * i + 1] == hex_of(lead)[2 * i]);
    assert(etag_of(data)[2 * i + 2] == hex_of(lead)[2 * i + 1]);
}

} // verus!
