//! Tile stores: how they are addressed, and what is said where they cannot be
//! opened.
use crate::digest::hex_value;
use crate::pmtiles::export::{flipped, tiles_across};
use crate::pmtiles::tile_id::side;
use crate::text::{chars_of, joined};
use vstd::arithmetic::power2::pow2;
use vstd::prelude::*;

verus! {

/// A character as it stands in a `file:` URI: backslashes become slashes, and
/// what the URI parser treats specially is escaped.
pub open spec fn uri_char(c: char) -> Seq<char> {
    if c == '\\' {
        seq!['/']
    } else if c == '%' {
        "%25"@
    } else if c == '?' {
        "%3f"@
    } else if c == '#' {
        "%23"@
    } else if c == ' ' {
        "%20"@
    } else {
        seq![c]
    }
}

/// A path as it stands in a `file:` URI.
pub open spec fn uri_path(path: Seq<char>) -> Seq<char>
    decreases path.len(),
{
    if path.len() == 0 {
        Seq::empty()
    } else {
        uri_path(path.drop_last()) + uri_char(path.last())
    }
}

/// A path that starts with a drive letter and a colon.
pub open spec fn has_drive(path: Seq<char>) -> bool {
    path.len() >= 2 && path[0] != '/' && path[0] != '\\' && path[1] == ':'
}

/// A `file:` URI with `immutable=1`, for reading a database on read-only media.
/// A path with a drive letter gets a slash in front.
pub fn immutable_uri(path: &str) -> (uri: String)
    ensures
        uri@ == "file:"@ + (if has_drive(path@) {
            seq!['/']
        } else {
            Seq::empty()
        }) + uri_path(path@) + "?immutable=1"@,
{
    let chars: Vec<char> = chars_of(path);
    let mut uri: String = "file:".to_owned();
    let drive: bool = chars.len() >= 2 && chars[0] != '/' && chars[0] != '\\' && chars[1] == ':';
    let ghost led = "file:"@ + (if has_drive(path@) {
        seq!['/']
    } else {
        Seq::empty()
    });
    if drive {
        uri.push('/');
    }
    assert(uri@ =~= led);
    assert(chars@.take(0) =~= Seq::<char>::empty());
    assert(led + uri_path(chars@.take(0)) =~= led);
    for i in 0..chars.len()
        invariant
            uri@ == led + uri_path(chars@.take(i as int)),
    {
        let ghost before = uri@;
        assert(chars@.take(i + 1).last() == chars@[i as int]);
        assert(chars@.take(i + 1).drop_last() =~= chars@.take(i as int));
        let c: char = chars[i];
        if c == '\\' {
            uri.push('/');
        } else if c == '%' {
            uri.append("%25");
        } else if c == '?' {
            uri.append("%3f");
        } else if c == '#' {
            uri.append("%23");
        } else if c == ' ' {
            uri.append("%20");
        } else {
            uri.push(c);
        }
        assert(uri@ =~= before + uri_char(c));
        assert(uri@ =~= led + uri_path(chars@.take(i as int + 1)));
    }
    assert(chars@.take(chars@.len() as int) =~= chars@);
    uri.append("?immutable=1");
    uri
}

/// The row under which a store keeps a tile: counted from the south.
pub fn tms_row(z: u8, y: u32) -> (row: u32)
    requires
        z <= 31,
        y < side(z as nat),
    ensures
        row == flipped(z, y as int),
        row < side(z as nat),
{
    tiles_across(z) - 1 - y
}

/// The row under which a store keeps a tile, if the tile is one of its zoom's grid.
/// A store has no other tiles.
pub fn stored_row(z: u8, y: u32) -> (row: Option<u32>)
    ensures
        match row {
            Some(row) => z <= 31 && y < side(z as nat) && row == flipped(z, y as int),
            None => z > 31 || y >= side(z as nat),
        },
{
    if z <= 31 && y < tiles_across(z) {
        Some(tms_row(z, y))
    } else {
        None
    }
}

/// Counting rows from the other edge twice gives the row back.
pub proof fn lemma_flip_twice(z: u8, y: int)
    ensures
        flipped(z, flipped(z, y)) == y,
{
}

/// The metadata of a new store of vector tiles.
pub fn default_metadata(name: &str, description: &str) -> (metadata: Vec<(String, String)>)
    ensures
        crate::pmtiles::metadata::pairs(metadata@) == seq![
            ("name"@, name@),
            ("format"@, "pbf"@),
            ("type"@, "overlay"@),
            ("version"@, "2"@),
            ("description"@, description@),
            ("scheme"@, "tms"@),
        ],
{
    let mut metadata: Vec<(String, String)> = Vec::new();
    metadata.push(("name".to_owned(), name.to_owned()));
    metadata.push(("format".to_owned(), "pbf".to_owned()));
    metadata.push(("type".to_owned(), "overlay".to_owned()));
    metadata.push(("version".to_owned(), "2".to_owned()));
    metadata.push(("description".to_owned(), description.to_owned()));
    metadata.push(("scheme".to_owned(), "tms".to_owned()));
    assert(crate::pmtiles::metadata::pairs(metadata@) =~= seq![
        ("name"@, name@),
        ("format"@, "pbf"@),
        ("type"@, "overlay"@),
        ("version"@, "2"@),
        ("description"@, description@),
        ("scheme"@, "tms"@),
    ]);
    metadata
}

/// The description of a store that is generated without other programs.
pub fn native_description(source: &str) -> (text: String)
    ensures
        text@ == "Generated by tilefeed for "@ + source@,
{
    joined("Generated by tilefeed for ", source)
}

/// What is said where a store cannot be opened: a file that is there failed for
/// a reason, one that is not has to be built first.
pub fn open_failure(path: &str, exists: bool, reason: &str) -> (text: String)
    ensures
        text@ == (if exists {
            "Failed to open MBTiles at "@ + path@ + ": "@ + reason@
        } else {
            "MBTiles file not found: "@ + path@ + ". Run `tilefeed generate` to build it first."@
        }),
{
    if exists {
        let mut text: String = joined("Failed to open MBTiles at ", path);
        text.append(": ");
        text.append(reason);
        text
    } else {
        let mut text: String = joined("MBTiles file not found: ", path);
        text.append(". Run `tilefeed generate` to build it first.");
        text
    }
}

/// What is said where a store cannot be opened for reading alone.
pub fn read_only_failure(path: &str, exists: bool, reason: &str) -> (text: String)
    ensures
        text@ == (if exists {
            "Failed to open MBTiles at "@ + path@ + ": "@ + reason@
        } else {
            "MBTiles file not found: "@ + path@
        }),
{
    if exists {
        let mut text: String = joined("Failed to open MBTiles at ", path);
        text.append(": ");
        text.append(reason);
        text
    } else {
        joined("MBTiles file not found: ", path)
    }
}

/// What is said of a database without tiles.
pub fn not_a_store(path: &str, rebuild: bool) -> (text: String)
    ensures
        text@ == path@ + " is not a valid MBTiles file (no `tiles` table)"@ + (if rebuild {
            ". Run `tilefeed generate` to rebuild it."@
        } else {
            Seq::empty()
        }),
{
    let mut text: String = joined(path, " is not a valid MBTiles file (no `tiles` table)");
    let ghost before = text@;
    if rebuild {
        text.append(". Run `tilefeed generate` to rebuild it.");
    }
    assert(!rebuild ==> before + Seq::<char>::empty() =~= before);
    text
}

/// A row and the one under which a store keeps it are as far from the two edges
/// of the grid.
pub proof fn lemma_rows_count_from_the_other_edge(z: u8, y: int)
    ensures
        flipped(z, y) + y + 1 == pow2(z as nat),
{
}

/// A path is escaped character by character.
pub proof fn lemma_paths_are_escaped_piecewise(a: Seq<char>, b: Seq<char>)
    ensures
        uri_path(a + b) == uri_path(a) + uri_path(b),
    decreases b.len(),
{
    if b.len() == 0 {
        assert(a + b =~= a);
        assert(uri_path(a) + Seq::<char>::empty() =~= uri_path(a));
    } else {
        lemma_paths_are_escaped_piecewise(a, b.drop_last());
        assert((a + b).drop_last() =~= a + b.drop_last());
        assert((a + b).last() == b.last());
        assert(uri_path(a + b) =~= uri_path(a) + uri_path(b));
    }
}

/// The characters that would end a path, or stand for another in it, are written
/// as a percent sign and their code in hexadecimal; a backslash becomes a slash, and
/// every other character stands for itself.
pub proof fn lemma_escapes_spell_the_character(c: char)
    ensures
        c == '%' || c == '?' || c == '#' || c == ' ' ==> {
            &&& uri_path(seq![c]).len() == 3
            &&& uri_path(seq![c])[0] == '%'
            &&& 16 * hex_value(uri_path(seq![c])[1]) + hex_value(uri_path(seq![c])[2]) == c as int
        },
        c == '\\' ==> uri_path(seq![c]) == seq!['/'],
        c != '%' && c != '?' && c != '#' && c != ' ' && c != '\\' ==> uri_path(seq![c])
            == seq![c],
{
    reveal_strlit("%25");
    reveal_strlit("%3f");
    reveal_strlit("%23");
    reveal_strlit("%20");
    assert(seq![c].drop_last() =~= Seq::<char>::empty());
    assert(uri_path(Seq::<char>::empty()) =~= Seq::<char>::empty());
    assert(uri_path(seq![c]) =~= uri_char(c));
}

/// A path has a drive where a colon stands behind its first character, which is no
/// slash of either kind.
pub proof fn lemma_drives(path: Seq<char>)
    ensures
        has_drive(path) ==> path.len() >= 2 && path[1] == ':' && path[0] != '/' && path[0] != '\\',
        path.len() >= 2 && path[1] == ':' && path[0] != '/' && path[0] != '\\' ==> has_drive(path),
{
}

} // verus!
