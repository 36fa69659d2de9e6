//! Words about exports: their errors, their outcome, and the paths and places
//! that they are given.
use crate::metrics::exposition::with_commas;
use crate::pmtiles::archive::ArchiveError;
use crate::pmtiles::directory::DirectoryError;
use crate::pmtiles::export::{tiles_across, ArchiveHead, ExportError, ExportStats};
use crate::pmtiles::header::Header;
use crate::pmtiles::tile_id::{side, TileIdError};
use crate::pmtiles::varint::VarintError;
use crate::text::{
    chars_of, decimal, decimal_text, has_part, joined, lemma_beginning, lemma_has_part,
    lemma_is_suffix, text_of, texts,
};
use vstd::prelude::*;

verus! {

/// Why an output path is refused.
#[derive(Debug, Clone, Copy, PartialEq, Eq, Structural)]
pub enum PathClash {
    /// Both paths are the same.
    SamePath,
    /// Both paths lead to the same file.
    SameFile,
}

/// The character at a place of a path is the whole of a name.
pub open spec fn alone_at(path: Seq<char>, i: int) -> bool {
    &&& i == 0 || path[i - 1] == '/'
    &&& i + 1 == path.len() || path[i + 1] == '/'
}

/// A character of a path stands for itself: it is none that some platform gives a
/// meaning of its own, no slash behind another, and no name `.` but at the start.
pub open spec fn plain_at(path: Seq<char>, i: int) -> bool {
    &&& path[i] != '\\'
    &&& path[i] != ':'
    &&& path[i] == '/' && i > 0 ==> path[i - 1] != '/'
    &&& path[i] == '.' && alone_at(path, i) ==> i == 0 && path.len() > 1
}

/// A path in plain spelling: names with one slash between them, behind nothing, a
/// slash, or `./`. No name but this first one is a single dot. Such a path can be
/// spelled in one way only.
pub open spec fn plainly_spelled(path: Seq<char>) -> bool {
    &&& path.len() > 0
    &&& path.last() != '/'
    &&& forall|i: int| 0 <= i < path.len() ==> #[trigger] plain_at(path, i)
}

/// `==` on `std::path::Path`, which compares component by component. Paths with
/// the same text are the same. Plainly spelled paths are the same only then: as
/// `Path::components` documents, repeated slashes, a slash at the end and a dot
/// that is not at the start are all that is dropped, and which other characters
/// part a path depends on the platform.
#[verifier::external_body]
fn same_path(a: &str, b: &str) -> (same: bool)
    ensures
        a@ == b@ ==> same,
        plainly_spelled(a@) && plainly_spelled(b@) && a@ != b@ ==> !same,
{
    std::path::Path::new(a) == std::path::Path::new(b)
}

/// What is wrong with two paths, given whether they are spelled the same and
/// whether they lead to the same file.
pub open spec fn clash_of(spelled_same: bool, leads_to_same: bool) -> Option<PathClash> {
    if spelled_same {
        Some(PathClash::SamePath)
    } else if leads_to_same {
        Some(PathClash::SameFile)
    } else {
        None
    }
}

/// Judge two paths: whether they are spelled the same, and whether they lead to
/// the same file.
pub fn path_clash(spelled_same: bool, leads_to_same: bool) -> (clash: Option<PathClash>)
    ensures
        clash == clash_of(spelled_same, leads_to_same),
{
    if spelled_same {
        Some(PathClash::SamePath)
    } else if leads_to_same {
        Some(PathClash::SameFile)
    } else {
        None
    }
}

/// Reject an output path that is the input, or that leads to the same file under
/// another spelling. An export reads every tile before it writes, so writing
/// over its source would destroy it and leave an archive that matches itself
/// perfectly.
pub fn check_paths(input: &str, output: &str, leads_to_same: bool) -> (res: Result<(), PathClash>)
    ensures
        input@ == output@ ==> res == Err::<(), PathClash>(PathClash::SamePath),
        leads_to_same ==> res is Err,
        res == Err::<(), PathClash>(PathClash::SameFile) ==> leads_to_same,
        plainly_spelled(input@) && plainly_spelled(output@) ==> match clash_of(
            input@ == output@,
            leads_to_same,
        ) {
            Some(clash) => res == Err::<(), PathClash>(clash),
            None => res is Ok,
        },
{
    match path_clash(same_path(input, output), leads_to_same) {
        Some(clash) => Err(clash),
        None => Ok(()),
    }
}

impl PathClash {
    /// The error in words.
    pub fn message(&self, input: &str, output: &str) -> (text: String)
        ensures
            text@ == (match self {
                PathClash::SamePath => "input and output are the same file: "@ + input@,
                PathClash::SameFile => "output "@ + output@ + " is the same file as the input "@
                    + input@,
            }),
    {
        match self {
            PathClash::SamePath => joined("input and output are the same file: ", input),
            PathClash::SameFile => {
                let mut text: String = joined("output ", output);
                text.append(" is the same file as the input ");
                text.append(input);
                text
            },
        }
    }
}

/// The name of the file that tile data is staged in.
pub fn staging_path(output: &str) -> (path: String)
    ensures
        path@ == output@ + ".tiles-staging"@,
{
    joined(output, ".tiles-staging")
}

/// The pieces of a text between its commas.
pub open spec fn comma_pieces(text: Seq<char>) -> Seq<Seq<char>>
    decreases text.len(),
{
    if text.len() == 0 {
        seq![Seq::empty()]
    } else {
        let front = comma_pieces(text.drop_last());
        if text.last() == ',' {
            front.push(Seq::empty())
        } else {
            front.drop_last().push(front.last().push(text.last()))
        }
    }
}

/// The pieces of a text between its commas.
pub fn split_commas(text: &str) -> (pieces: Vec<String>)
    ensures
        texts(pieces@) == comma_pieces(text@),
{
    let chars: Vec<char> = chars_of(text);
    let mut pieces: Vec<String> = Vec::new();
    let mut start: usize = 0;
    let ghost all = chars@;
    proof {
        assert(all.take(0) =~= Seq::<char>::empty());
        assert(all.subrange(0, 0) =~= Seq::<char>::empty());
        assert(texts(pieces@).push(all.subrange(0, 0)) =~= comma_pieces(all.take(0)));
    }
    for i in 0..chars.len()
        invariant
            all == chars@,
            start <= i,
            texts(pieces@).push(all.subrange(start as int, i as int)) == comma_pieces(
                all.take(i as int),
            ),
    {
        let ghost held = texts(pieces@);
        let ghost open = all.subrange(start as int, i as int);
        proof {
            assert(all.take(i + 1).last() == all[i as int]);
            assert(all.take(i + 1).drop_last() =~= all.take(i as int));
            assert(held.push(open).last() == open);
            assert(held.push(open).drop_last() =~= held);
        }
        if chars[i] == ',' {
            pieces.push(text_of(chars.as_slice(), start, i));
            start = i + 1;
            assert(texts(pieces@) =~= held.push(open));
            assert(all.subrange(start as int, i + 1) =~= Seq::<char>::empty());
        } else {
            assert(all.subrange(start as int, i + 1) =~= open.push(all[i as int]));
        }
    }
    let ghost held = texts(pieces@);
    let ghost rest = all.subrange(start as int, all.len() as int);
    assert(all.take(all.len() as int) =~= all);
    pieces.push(text_of(chars.as_slice(), start, chars.len()));
    assert(texts(pieces@) =~= held.push(rest));
    pieces
}

/// The whole map up to the latitudes of Web Mercator, in ten-millionths of a
/// degree: the bounds of a store that states none.
pub open spec fn whole_map() -> (i32, i32, i32, i32) {
    (-1800000000i32, -850511288i32, 1800000000i32, 850511288i32)
}

/// The bounds that some positions state: exactly four do.
pub fn parse_bounds(positions: &Vec<i32>) -> (bounds: (i32, i32, i32, i32))
    ensures
        bounds == (if positions@.len() == 4 {
            (positions@[0], positions@[1], positions@[2], positions@[3])
        } else {
            whole_map()
        }),
{
    if positions.len() == 4 {
        (positions[0], positions[1], positions[2], positions[3])
    } else {
        (-1800000000, -850511288, 1800000000, 850511288)
    }
}

/// The center that some positions state: two do, or three, the last of which is
/// the zoom.
pub fn parse_center(positions: &Vec<i32>) -> (center: Option<(i32, i32)>)
    ensures
        center == (if positions@.len() == 2 || positions@.len() == 3 {
            Some((positions@[0], positions@[1]))
        } else {
            None::<(i32, i32)>
        }),
{
    if positions.len() == 2 || positions.len() == 3 {
        Some((positions[0], positions[1]))
    } else {
        None
    }
}

impl ArchiveHead {
    /// What the export produced.
    pub fn stats(&self, tiles_verified: usize) -> (stats: ExportStats)
        requires
            self.header.data_offset + self.header.data_length <= u64::MAX,
        ensures
            stats == (ExportStats {
                addressed_tiles: self.header.addressed_tiles,
                tile_entries: self.header.tile_entries,
                tile_contents: self.header.tile_contents,
                leaf_directories: self.leaf_directories,
                bytes_written: (self.header.data_offset + self.header.data_length) as u64,
                min_zoom: self.header.min_zoom,
                max_zoom: self.header.max_zoom,
                tiles_verified,
            }),
    {
        let h: &Header = &self.header;
        ExportStats {
            addressed_tiles: h.addressed_tiles,
            tile_entries: h.tile_entries,
            tile_contents: h.tile_contents,
            leaf_directories: self.leaf_directories,
            bytes_written: h.data_offset + h.data_length,
            min_zoom: h.min_zoom,
            max_zoom: h.max_zoom,
            tiles_verified,
        }
    }
}

/// The report on an export.
pub open spec fn export_lines(output: Seq<char>, s: ExportStats) -> Seq<Seq<char>> {
    seq![
        "PMTiles archive: "@ + output,
        Seq::empty(),
        "  Zoom levels:       "@ + decimal(s.min_zoom as nat) + "-"@ + decimal(s.max_zoom as nat),
        "  Tiles:             "@ + decimal(s.addressed_tiles as nat),
        "  Directory entries: "@ + decimal(s.tile_entries as nat) + " ("@ + decimal(
            (s.addressed_tiles - s.tile_entries) as nat,
        ) + " saved by runs)"@,
        "  Distinct blobs:    "@ + decimal(s.tile_contents as nat) + " ("@ + decimal(
            (s.tile_entries - s.tile_contents) as nat,
        ) + " deduplicated)"@,
        "  Leaf directories:  "@ + decimal(s.leaf_directories as nat),
        "  Size:              "@ + decimal(s.bytes_written as nat) + " bytes"@,
        "  Verified:          "@ + decimal(s.tiles_verified as nat)
            + " tiles re-read and compared against the source"@,
    ]
}

/// A labelled number with what it leaves out.
fn saving(label: &str, n: u64, saved: u64, tail: &str) -> (line: String)
    ensures
        line@ == label@ + decimal(n as nat) + " ("@ + decimal(saved as nat) + tail@,
{
    let mut line: String = joined(label, decimal_text(n).as_str());
    line.append(" (");
    line.append(decimal_text(saved).as_str());
    line.append(tail);
    line
}

/// The report on an export, line by line.
pub fn export_report(output: &str, stats: &ExportStats) -> (lines: Vec<String>)
    requires
        stats.tile_contents <= stats.tile_entries <= stats.addressed_tiles,
    ensures
        texts(lines@) == export_lines(output@, *stats),
{
    let mut lines: Vec<String> = Vec::new();
    lines.push(joined("PMTiles archive: ", output));
    lines.push(String::new());
    let mut zooms: String = joined(
        "  Zoom levels:       ",
        decimal_text(stats.min_zoom as u64).as_str(),
    );
    zooms.append("-");
    zooms.append(decimal_text(stats.max_zoom as u64).as_str());
    lines.push(zooms);
    lines.push(joined("  Tiles:             ", decimal_text(stats.addressed_tiles).as_str()));
    lines.push(
        saving(
            "  Directory entries: ",
            stats.tile_entries,
            stats.addressed_tiles - stats.tile_entries,
            " saved by runs)",
        ),
    );
    lines.push(
        saving(
            "  Distinct blobs:    ",
            stats.tile_contents,
            stats.tile_entries - stats.tile_contents,
            " deduplicated)",
        ),
    );
    lines.push(
        joined("  Leaf directories:  ", decimal_text(stats.leaf_directories as u64).as_str()),
    );
    let mut size: String = joined(
        "  Size:              ",
        decimal_text(stats.bytes_written).as_str(),
    );
    size.append(" bytes");
    lines.push(size);
    let mut verified: String = joined(
        "  Verified:          ",
        decimal_text(stats.tiles_verified as u64).as_str(),
    );
    verified.append(" tiles re-read and compared against the source");
    lines.push(verified);
    assert(texts(lines@) =~= export_lines(output@, *stats));
    lines
}

impl VarintError {
    /// The error in words.
    pub fn message(&self) -> (text: &'static str)
        ensures
            text@ == (match self {
                VarintError::Truncated => "varint ran past end of directory"@,
                VarintError::TooLong => "varint is too long to be a u64"@,
            }),
    {
        match self {
            VarintError::Truncated => "varint ran past end of directory",
            VarintError::TooLong => "varint is too long to be a u64",
        }
    }
}

impl DirectoryError {
    /// The message of the error.
    pub open spec fn spec_message(self) -> Seq<char> {
        match self {
            DirectoryError::Varint(VarintError::Truncated) => "varint ran past end of directory"@,
            DirectoryError::Varint(VarintError::TooLong) => "varint is too long to be a u64"@,
            DirectoryError::ImplausibleCount(n) => "directory claims "@ + decimal(n as nat)
                + " entries, which is implausible"@,
            DirectoryError::TileIdOverflow => "tile ids overflow"@,
            DirectoryError::FirstEntryContiguous => "first directory entry uses the contiguous-offset shorthand"@,
            DirectoryError::OffsetOverflow => "directory offsets overflow"@,
        }
    }

    /// The error in words.
    pub fn message(&self) -> (text: String)
        ensures
            text@ == self.spec_message(),
    {
        match self {
            DirectoryError::Varint(e) => e.message().to_owned(),
            DirectoryError::ImplausibleCount(n) => {
                let mut text: String = joined("directory claims ", decimal_text(*n).as_str());
                text.append(" entries, which is implausible");
                text
            },
            DirectoryError::TileIdOverflow => "tile ids overflow".to_owned(),
            DirectoryError::FirstEntryContiguous => "first directory entry uses the contiguous-offset shorthand".to_owned(),
            DirectoryError::OffsetOverflow => "directory offsets overflow".to_owned(),
        }
    }
}

impl TileIdError {
    /// The error in words.
    pub fn message(&self) -> (text: String)
        ensures
            text@ == (match self {
                TileIdError::BeyondZoom31(id) => "tile id "@ + decimal(*id as nat)
                    + " is beyond zoom 31"@,
            }),
    {
        match self {
            TileIdError::BeyondZoom31(id) => {
                let mut text: String = joined("tile id ", decimal_text(*id).as_str());
                text.append(" is beyond zoom 31");
                text
            },
        }
    }
}

impl ArchiveError {
    /// The message of the error.
    pub open spec fn spec_message(self) -> Seq<char> {
        match self {
            ArchiveError::ShorterThanHeader => "archive is shorter than a PMTiles header"@,
            ArchiveError::Header(e) => e.spec_message(),
            ArchiveError::SectionOverflow => "archive section offset overflows"@,
            ArchiveError::SectionOutside { len, offset, length } => "archive is "@ + decimal(
                len as nat,
            ) + " bytes but a section at "@ + decimal(offset as nat) + "+"@ + decimal(length as nat)
                + " was requested"@,
            ArchiveError::Decompression => "directory is not valid gzip"@,
            ArchiveError::Directory(e) => e.spec_message(),
            ArchiveError::LeafOffsetOverflow => "leaf directory offset overflows"@,
            ArchiveError::TileOffsetOverflow => "tile offset overflows"@,
            ArchiveError::DataOverflow => "header describes a tile data section that overflows"@,
            ArchiveError::DataOutside { len, declared_end } => "archive is "@ + decimal(len as nat)
                + " bytes but the header describes "@ + decimal(declared_end as nat),
            ArchiveError::EntryOverflow => "directory entry offset overflows"@,
            ArchiveError::EntryOutside(id) => "tile "@ + decimal(id as nat)
                + " points outside the tile data section"@,
            ArchiveError::EntryCount { declared, found } => "header says "@ + decimal(
                declared as nat,
            ) + " tile entries, directories hold "@ + decimal(found as nat),
        }
    }

    /// The error in words.
    pub fn message(&self) -> (text: String)
        ensures
            text@ == self.spec_message(),
    {
        match self {
            ArchiveError::ShorterThanHeader => "archive is shorter than a PMTiles header".to_owned(),
            ArchiveError::Header(e) => e.message(),
            ArchiveError::SectionOverflow => "archive section offset overflows".to_owned(),
            ArchiveError::SectionOutside { len, offset, length } => {
                let mut text: String = joined("archive is ", decimal_text(*len).as_str());
                text.append(" bytes but a section at ");
                text.append(decimal_text(*offset).as_str());
                text.append("+");
                text.append(decimal_text(*length).as_str());
                text.append(" was requested");
                text
            },
            ArchiveError::Decompression => "directory is not valid gzip".to_owned(),
            ArchiveError::Directory(e) => e.message(),
            ArchiveError::LeafOffsetOverflow => "leaf directory offset overflows".to_owned(),
            ArchiveError::TileOffsetOverflow => "tile offset overflows".to_owned(),
            ArchiveError::DataOverflow => "header describes a tile data section that overflows".to_owned(),
            ArchiveError::DataOutside { len, declared_end } => {
                let mut text: String = joined("archive is ", decimal_text(*len).as_str());
                text.append(" bytes but the header describes ");
                text.append(decimal_text(*declared_end).as_str());
                text
            },
            ArchiveError::EntryOverflow => "directory entry offset overflows".to_owned(),
            ArchiveError::EntryOutside(id) => {
                let mut text: String = joined("tile ", decimal_text(*id).as_str());
                text.append(" points outside the tile data section");
                text
            },
            ArchiveError::EntryCount { declared, found } => {
                let mut text: String = joined("header says ", decimal_text(*declared).as_str());
                text.append(" tile entries, directories hold ");
                text.append(decimal_text(*found).as_str());
                text
            },
        }
    }
}

/// A tile in words.
pub open spec fn tile_text(z: u8, x: u32, y: u32) -> Seq<char> {
    "tile "@ + decimal(z as nat) + "/"@ + decimal(x as nat) + "/"@ + decimal(y as nat)
}

fn tile_words(z: u8, x: u32, y: u32, tail: &str) -> (text: String)
    ensures
        text@ == tile_text(z, x, y) + tail@,
{
    let mut text: String = joined("tile ", decimal_text(z as u64).as_str());
    text.append("/");
    text.append(decimal_text(x as u64).as_str());
    text.append("/");
    text.append(decimal_text(y as u64).as_str());
    text.append(tail);
    text
}

/// The size of a zoom's grid; nothing for zooms that have none.
pub open spec fn grid_text(z: u8) -> Seq<char> {
    if z <= 31 {
        decimal(side(z as nat) as nat) + "x"@ + decimal(side(z as nat) as nat)
    } else {
        Seq::empty()
    }
}

fn grid_words(z: u8) -> (text: String)
    ensures
        text@ == grid_text(z),
{
    if z > 31 {
        return String::new();
    }
    let edge: String = decimal_text(tiles_across(z) as u64);
    let mut text: String = joined(edge.as_str(), "x");
    text.append(edge.as_str());
    text
}

impl ExportError {
    /// The message of the error, for an export of `input`.
    pub open spec fn spec_message(self, input: Seq<char>) -> Seq<char> {
        match self {
            ExportError::NoTiles => input + " contains no tiles"@,
            ExportError::ZoomOutOfRange(z) => "zoom "@ + decimal(z as nat)
                + " is out of range (0-30)"@,
            ExportError::OutsideGrid { z, x, tms_y } => tile_text(z, x, tms_y)
                + " is outside the "@ + grid_text(z) + " grid of zoom "@ + decimal(z as nat),
            ExportError::Build(e) => e.spec_message(),
            ExportError::Metadata => "metadata could not be written as JSON"@,
            ExportError::Compression => "compression failed"@,
            ExportError::TooLarge => "archive is too large"@,
            ExportError::Vanished { z, x, y } => tile_text(z, x, y) + " vanished from the source"@,
            ExportError::Missing { z, x, y } => tile_text(z, x, y) + " is missing from the archive"@,
            ExportError::Mismatch { z, x, y } => tile_text(z, x, y)
                + " does not match the source: the archive is mis-addressed"@,
        }
    }

    /// The error in words, for an export of `input`.
    pub fn message(&self, input: &str) -> (text: String)
        ensures
            text@ == self.spec_message(input@),
    {
        match self {
            ExportError::NoTiles => joined(input, " contains no tiles"),
            ExportError::ZoomOutOfRange(z) => {
                let mut text: String = joined("zoom ", decimal_text(*z as u64).as_str());
                text.append(" is out of range (0-30)");
                text
            },
            ExportError::OutsideGrid { z, x, tms_y } => {
                let mut text: String = tile_words(*z, *x, *tms_y, " is outside the ");
                text.append(grid_words(*z).as_str());
                text.append(" grid of zoom ");
                text.append(decimal_text(*z as u64).as_str());
                text
            },
            ExportError::Build(e) => e.message(),
            ExportError::Metadata => "metadata could not be written as JSON".to_owned(),
            ExportError::Compression => "compression failed".to_owned(),
            ExportError::TooLarge => "archive is too large".to_owned(),
            ExportError::Vanished { z, x, y } => tile_words(
                *z,
                *x,
                *y,
                " vanished from the source",
            ),
            ExportError::Missing { z, x, y } => tile_words(
                *z,
                *x,
                *y,
                " is missing from the archive",
            ),
            ExportError::Mismatch { z, x, y } => tile_words(
                *z,
                *x,
                *y,
                " does not match the source: the archive is mis-addressed",
            ),
        }
    }
}

/// The pieces of a text hold no comma, and with commas between them they are the
/// text again.
pub proof fn lemma_pieces_make_up_the_text(text: Seq<char>)
    ensures
        comma_pieces(text).len() >= 1,
        with_commas(comma_pieces(text)) == text,
        forall|i: int|
            0 <= i < comma_pieces(text).len() ==> !(#[trigger] comma_pieces(text)[i]).contains(','),
    decreases text.len(),
{
    reveal_strlit(",");
    let pieces = comma_pieces(text);
    if text.len() == 0 {
        assert(with_commas(pieces) =~= text);
    } else {
        let front = comma_pieces(text.drop_last());
        let c = text.last();
        lemma_pieces_make_up_the_text(text.drop_last());
        if c == ',' {
            assert(pieces.drop_last() =~= front);
            assert(with_commas(pieces) =~= text);
        } else {
            let last = front.last().push(c);
            assert(pieces.drop_last() =~= front.drop_last());
            assert(with_commas(pieces) =~= with_commas(front).push(c)) by {
                if front.len() > 1 {
                    assert(with_commas(front) == with_commas(front.drop_last()) + ","@
                        + front.last());
                    assert(with_commas(pieces) == with_commas(front.drop_last()) + ","@ + last);
                }
            }
            assert(with_commas(pieces) =~= text);
            assert forall|i: int| 0 <= i < pieces.len() implies !(
            #[trigger] pieces[i]).contains(',') by {
                if i < front.len() - 1 {
                    assert(pieces[i] == front[i]);
                } else {
                    assert(pieces[i] == last);
                    assert(!front[front.len() - 1].contains(','));
                    if last.contains(',') {
                        let k = choose|k: int| 0 <= k < last.len() && last[k] == ',';
                        assert(front.last()[k] == ',');
                    }
                }
            }
        }
    }
}

/// Two paths clash where they are spelled the same, and where they lead to the same
/// file.
pub proof fn lemma_paths_clash(spelled_same: bool, leads_to_same: bool)
    ensures
        clash_of(spelled_same, leads_to_same) is None <==> !spelled_same && !leads_to_same,
        spelled_same ==> clash_of(spelled_same, leads_to_same) == Some(PathClash::SamePath),
        !spelled_same && leads_to_same ==> clash_of(spelled_same, leads_to_same) == Some(
            PathClash::SameFile,
        ),
{
}

/// A report on an export names the archive and gives its zooms, its tiles, its
/// entries and how many the runs saved, its blobs and how many entries share one, its
/// leaves, its size, and how many tiles were read again.
pub proof fn lemma_export_report_says_everything(output: Seq<char>, s: ExportStats)
    requires
        s.tile_contents <= s.tile_entries <= s.addressed_tiles,
    ensures
        ({
            let lines = export_lines(output, s);
            let runs = (s.addressed_tiles - s.tile_entries) as nat;
            let shared = (s.tile_entries - s.tile_contents) as nat;
            &&& lines.len() == 9
            &&& output.is_suffix_of(lines[0])
            &&& has_part(lines[2], decimal(s.min_zoom as nat))
            &&& decimal(s.max_zoom as nat).is_suffix_of(lines[2])
            &&& decimal(s.addressed_tiles as nat).is_suffix_of(lines[3])
            &&& has_part(lines[4], decimal(s.tile_entries as nat))
            &&& has_part(lines[4], decimal(runs))
            &&& has_part(lines[5], decimal(s.tile_contents as nat))
            &&& has_part(lines[5], decimal(shared))
            &&& decimal(s.leaf_directories as nat).is_suffix_of(lines[6])
            &&& has_part(lines[7], decimal(s.bytes_written as nat))
            &&& has_part(lines[8], decimal(s.tiles_verified as nat))
        }),
{
    let lines = export_lines(output, s);
    let runs = (s.addressed_tiles - s.tile_entries) as nat;
    let shared = (s.tile_entries - s.tile_contents) as nat;
    lemma_is_suffix("PMTiles archive: "@, output);
    lemma_two_numbers(
        "  Zoom levels:       "@,
        decimal(s.min_zoom as nat),
        "-"@,
        decimal(s.max_zoom as nat),
        Seq::empty(),
    );
    lemma_is_suffix(
        "  Zoom levels:       "@ + decimal(s.min_zoom as nat) + "-"@,
        decimal(s.max_zoom as nat),
    );
    assert(lines[2] + Seq::<char>::empty() =~= lines[2]);
    lemma_is_suffix("  Tiles:             "@, decimal(s.addressed_tiles as nat));
    lemma_two_numbers(
        "  Directory entries: "@,
        decimal(s.tile_entries as nat),
        " ("@,
        decimal(runs),
        " saved by runs)"@,
    );
    lemma_two_numbers(
        "  Distinct blobs:    "@,
        decimal(s.tile_contents as nat),
        " ("@,
        decimal(shared),
        " deduplicated)"@,
    );
    lemma_is_suffix("  Leaf directories:  "@, decimal(s.leaf_directories as nat));
    lemma_has_part("  Size:              "@, decimal(s.bytes_written as nat), " bytes"@);
    lemma_has_part(
        "  Verified:          "@,
        decimal(s.tiles_verified as nat),
        " tiles re-read and compared against the source"@,
    );
}

proof fn lemma_two_numbers(
    before: Seq<char>,
    first: Seq<char>,
    between: Seq<char>,
    second: Seq<char>,
    behind: Seq<char>,
)
    ensures
        has_part(before + first + between + second + behind, first),
        has_part(before + first + between + second + behind, second),
{
    let text = before + first + between + second + behind;
    assert(before + first + (between + second + behind) =~= text);
    lemma_has_part(before, first, between + second + behind);
    lemma_has_part(before + first + between, second, behind);
}

/// A tile is named by its zoom, its column and its row.
pub proof fn lemma_tile_is_named_by_its_place(z: u8, x: u32, y: u32)
    ensures
        ({
            let (a, b, c) = (decimal(z as nat), decimal(x as nat), decimal(y as nat));
            let text = tile_text(z, x, y);
            let i = 5 + a.len() as int;
            let j = i + 1 + b.len();
            &&& text.len() == j + 1 + c.len()
            &&& text.subrange(5, i) == a
            &&& text[i] == '/'
            &&& text.subrange(i + 1, j) == b
            &&& text[j] == '/'
            &&& text.skip(j + 1) == c
        }),
{
    reveal_strlit("tile ");
    reveal_strlit("/");
    let (a, b, c) = (decimal(z as nat), decimal(x as nat), decimal(y as nat));
    let text = tile_text(z, x, y);
    let i = 5 + a.len() as int;
    let j = i + 1 + b.len();
    assert(text.subrange(5, i) =~= a);
    assert(text.subrange(i + 1, j) =~= b);
    assert(text.skip(j + 1) =~= c);
}

/// The bounds of a store that states none reach around the globe, and as far north
/// as south.
pub proof fn lemma_whole_map_is_the_globe()
    ensures
        whole_map().2 - whole_map().0 == 360 * 10_000_000,
        whole_map().0 == -whole_map().2,
        whole_map().1 == -whole_map().3,
        whole_map().3 == 850_511_288,
{
}

/// An error of an archive gives the numbers that do not fit together.
pub proof fn lemma_archive_error_gives_the_numbers(e: ArchiveError)
    ensures
        match e {
            ArchiveError::Header(inner) => e.spec_message() == inner.spec_message(),
            ArchiveError::Directory(inner) => e.spec_message() == inner.spec_message(),
            ArchiveError::SectionOutside { len, offset, length } => has_part(
                e.spec_message(),
                decimal(len as nat),
            ) && has_part(e.spec_message(), decimal(offset as nat)) && has_part(
                e.spec_message(),
                decimal(length as nat),
            ),
            ArchiveError::DataOutside { len, declared_end } => has_part(
                e.spec_message(),
                decimal(len as nat),
            ) && decimal(declared_end as nat).is_suffix_of(e.spec_message()),
            ArchiveError::EntryOutside(id) => has_part(e.spec_message(), decimal(id as nat)),
            ArchiveError::EntryCount { declared, found } => has_part(
                e.spec_message(),
                decimal(declared as nat),
            ) && decimal(found as nat).is_suffix_of(e.spec_message()),
            _ => true,
        },
{
    match e {
        ArchiveError::SectionOutside { len, offset, length } => {
            let (a, b, c) = (decimal(len as nat), decimal(offset as nat), decimal(length as nat));
            let text = e.spec_message();
            let t1 = "archive is "@;
            let t2 = t1 + a + " bytes but a section at "@;
            let t3 = t2 + b + "+"@;
            assert(text == t3 + c + " was requested"@);
            assert(text =~= text.subrange(0, text.len() as int));
            lemma_beginning(t3 + c, " was requested"@, text);
            lemma_beginning(t3, c, text);
            lemma_beginning(t2 + b, "+"@, text);
            lemma_beginning(t2, b, text);
            lemma_beginning(t1 + a, " bytes but a section at "@, text);
            lemma_beginning(t1, a, text);
        },
        ArchiveError::DataOutside { len, declared_end } => {
            lemma_two_numbers(
                "archive is "@,
                decimal(len as nat),
                " bytes but the header describes "@,
                decimal(declared_end as nat),
                Seq::empty(),
            );
            assert(e.spec_message() + Seq::<char>::empty() =~= e.spec_message());
            lemma_is_suffix(
                "archive is "@ + decimal(len as nat) + " bytes but the header describes "@,
                decimal(declared_end as nat),
            );
        },
        ArchiveError::EntryOutside(id) => lemma_has_part(
            "tile "@,
            decimal(id as nat),
            " points outside the tile data section"@,
        ),
        ArchiveError::EntryCount { declared, found } => {
            lemma_two_numbers(
                "header says "@,
                decimal(declared as nat),
                " tile entries, directories hold "@,
                decimal(found as nat),
                Seq::empty(),
            );
            assert(e.spec_message() + Seq::<char>::empty() =~= e.spec_message());
            lemma_is_suffix(
                "header says "@ + decimal(declared as nat) + " tile entries, directories hold "@,
                decimal(found as nat),
            );
        },
        _ => {},
    }
}

/// An error of an export names the store or the tile that it is about.
pub proof fn lemma_export_error_names_the_tile(e: ExportError, input: Seq<char>)
    ensures
        match e {
            ExportError::NoTiles => input.is_prefix_of(e.spec_message(input)),
            ExportError::ZoomOutOfRange(z) => has_part(e.spec_message(input), decimal(z as nat)),
            ExportError::OutsideGrid { z, x, tms_y } => tile_text(z, x, tms_y).is_prefix_of(
                e.spec_message(input),
            ) && decimal(z as nat).is_suffix_of(e.spec_message(input)),
            ExportError::Vanished { z, x, y } => tile_text(z, x, y).is_prefix_of(
                e.spec_message(input),
            ),
            ExportError::Missing { z, x, y } => tile_text(z, x, y).is_prefix_of(
                e.spec_message(input),
            ),
            ExportError::Mismatch { z, x, y } => tile_text(z, x, y).is_prefix_of(
                e.spec_message(input),
            ),
            ExportError::Build(inner) => e.spec_message(input) == inner.spec_message(),
            _ => true,
        },
{
    let text = e.spec_message(input);
    assert(text =~= text.subrange(0, text.len() as int));
    match e {
        ExportError::NoTiles => lemma_beginning(input, " contains no tiles"@, text),
        ExportError::ZoomOutOfRange(z) => lemma_has_part(
            "zoom "@,
            decimal(z as nat),
            " is out of range (0-30)"@,
        ),
        ExportError::OutsideGrid { z, x, tms_y } => {
            let tile = tile_text(z, x, tms_y);
            let t1 = tile + " is outside the "@;
            let t2 = t1 + grid_text(z);
            let t3 = t2 + " grid of zoom "@;
            lemma_is_suffix(t3, decimal(z as nat));
            lemma_beginning(t3, decimal(z as nat), text);
            lemma_beginning(t2, " grid of zoom "@, text);
            lemma_beginning(t1, grid_text(z), text);
            lemma_beginning(tile, " is outside the "@, text);
        },
        ExportError::Vanished { z, x, y } => lemma_beginning(
            tile_text(z, x, y),
            " vanished from the source"@,
            text,
        ),
        ExportError::Missing { z, x, y } => lemma_beginning(
            tile_text(z, x, y),
            " is missing from the archive"@,
            text,
        ),
        ExportError::Mismatch { z, x, y } => lemma_beginning(
            tile_text(z, x, y),
            " does not match the source: the archive is mis-addressed"@,
            text,
        ),
        _ => {},
    }
}

} // verus!
