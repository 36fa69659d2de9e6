//! Writing an archive from a tile store.
use crate::order::{ascending_numbers, lemma_same_members, sort_numbers};
use crate::pmtiles::archive::{
    archive_tile, check_archive, check_after_leaf, check_from, directory_at, entry_error, first_error,
    last_at_most, lookup_in, parse_stored, section, ArchiveError,
};
use crate::pmtiles::directory::{entry_end, Entry};
use crate::pmtiles::gzip::{gzip, gzip_of, store_tile, stored_tile};
use crate::pmtiles::header::{
    header_bytes, lemma_header_round_trip, parse_header, Compressed, Header, HeaderError, TileType,
    HEADER_LEN,
};
use crate::pmtiles::leaves::{
    build_directories, directories, indexes, indexes_by_leaves, leaf_chunk, leaf_count,
    lemma_leaf_count, points_to_leaf, pointed_to, readable, stored_directory, written_statable,
    BuildError,
};
use crate::pmtiles::pack::{
    acceptable, ascending, covers, entry_data, holds, lemma_covering_entry_is_found,
    lemma_last_at_most, lemma_last_at_most_is_entry, lemma_pack_holds_exactly, lemma_pack_is_sound,
    lemma_uncovered_number, no_collisions, numbered, pack, statable, ArchiveBuilder,
    NumberedTile, Packed,
};
use crate::pmtiles::tile_id::{
    lemma_tile_number_round_trip, lemma_tile_numbers_are_unique, lemma_zoom_base_fits,
    lemma_zoom_base_monotonic, side, tile_id, tile_id_to_zxy, tile_number, zoom_base,
};
use vstd::arithmetic::power2::pow2;
use vstd::prelude::*;
use vstd::utf8::encode_utf8;

verus! {

/// Why an export failed.
#[derive(Debug, Clone, Copy, PartialEq, Eq, Structural)]
pub enum ExportError {
    /// The store has no tiles.
    NoTiles,
    /// A tile's zoom is beyond those that rows are kept for.
    ZoomOutOfRange(u8),
    /// A tile lies outside the grid of its zoom.
    OutsideGrid { z: u8, x: u32, tms_y: u32 },
    /// The directories could not be built.
    Build(BuildError),
    /// The metadata could not be written as JSON.
    Metadata,
    /// Metadata or a tile could not be compressed.
    Compression,
    /// The archive would be larger than 64 bits can say.
    TooLarge,
    /// A sampled tile is no longer in the store.
    Vanished { z: u8, x: u32, y: u32 },
    /// A sampled tile is not in the archive.
    Missing { z: u8, x: u32, y: u32 },
    /// A sampled tile differs between the store and the archive.
    Mismatch { z: u8, x: u32, y: u32 },
}

/// What an export produced.
#[derive(Debug, Clone, Copy, PartialEq, Eq, Structural)]
pub struct ExportStats {
    /// Tiles addressable in the archive.
    pub addressed_tiles: u64,
    /// Directory entries (fewer than tiles when runs are collapsed).
    pub tile_entries: u64,
    /// Distinct tile blobs written (fewer than entries when tiles are
    /// deduplicated).
    pub tile_contents: u64,
    pub leaf_directories: usize,
    pub bytes_written: u64,
    pub min_zoom: u8,
    pub max_zoom: u8,
    /// Tiles re-read from the finished archive and compared with the store.
    pub tiles_verified: usize,
}

/// What is wrong with a stored tile's coordinates.
pub open spec fn row_error(z: u8, x: u32, tms_y: u32) -> Option<ExportError> {
    if z > 30 {
        Some(ExportError::ZoomOutOfRange(z))
    } else if x >= side(z as nat) || tms_y >= side(z as nat) {
        Some(ExportError::OutsideGrid { z, x, tms_y })
    } else {
        None
    }
}

/// A row counted from the other edge of the grid.
pub open spec fn flipped(z: u8, y: int) -> int {
    side(z as nat) - 1 - y
}

/// Turn a stored row, counted from the south, into a tile row, counted from the
/// north. A row outside the zoom's range is rejected.
pub fn flip_y(z: u8, x: u32, tms_y: u32) -> (res: Result<u32, ExportError>)
    ensures
        match row_error(z, x, tms_y) {
            Some(e) => res == Err::<u32, ExportError>(e),
            None => res is Ok && res->Ok_0 == flipped(z, tms_y as int) && res->Ok_0 < side(
                z as nat,
            ),
        },
{
    if z > 30 {
        return Err(ExportError::ZoomOutOfRange(z));
    }
    let edge: u32 = tiles_across(z);
    if x >= edge || tms_y >= edge {
        return Err(ExportError::OutsideGrid { z, x, tms_y });
    }
    Ok(edge - 1 - tms_y)
}

/// Tiles along one edge of a zoom.
pub fn tiles_across(z: u8) -> (n: u32)
    requires
        z <= 31,
    ensures
        n == side(z as nat),
{
    proof {
        vstd::arithmetic::power2::lemma2_to64();
        if z < 31 {
            vstd::arithmetic::power2::lemma_pow2_strictly_increases(z as nat, 31);
        }
        vstd::bits::lemma_u32_shl_is_mul(1, z as u32);
    }
    1u32 << (z as u32)
}

/// A tile to export: its number, and where the store keeps it.
#[derive(Debug, Clone, Copy, PartialEq, Eq, Structural)]
pub struct PlannedTile {
    pub id: u64,
    pub z: u8,
    pub x: u32,
    pub tms_y: u32,
}

/// The tiles to export in the order in which they are written.
#[derive(Debug)]
pub struct ExportPlan {
    pub tiles: Vec<PlannedTile>,
    pub min_zoom: u8,
    pub max_zoom: u8,
}

/// The number of a stored tile.
pub open spec fn row_number(coord: (u8, u32, u32)) -> u128 {
    tile_number(coord.0 as nat, coord.1 as int, flipped(coord.0, coord.2 as int)) as u128
}

/// The numbers of stored tiles.
pub open spec fn row_numbers(coords: Seq<(u8, u32, u32)>) -> Seq<u128> {
    Seq::new(coords.len(), |i: int| row_number(coords[i]))
}

/// The numbers of planned tiles.
pub open spec fn planned_numbers(tiles: Seq<PlannedTile>) -> Seq<u128> {
    Seq::new(tiles.len(), |i: int| tiles[i].id as u128)
}

/// The coordinates of a planned tile are those that its number stands for.
pub open spec fn planned_well(t: PlannedTile) -> bool {
    &&& t.z <= 30
    &&& t.x < side(t.z as nat)
    &&& t.tms_y < side(t.z as nat)
    &&& t.id == row_number((t.z, t.x, t.tms_y))
}

/// The first of some stored tiles whose coordinates are wrong.
pub open spec fn first_row_error(coords: Seq<(u8, u32, u32)>) -> Option<ExportError>
    decreases coords.len(),
{
    if coords.len() == 0 {
        None
    } else if first_row_error(coords.drop_last()) is Some {
        first_row_error(coords.drop_last())
    } else {
        row_error(coords.last().0, coords.last().1, coords.last().2)
    }
}

proof fn lemma_row_error_stays(coords: Seq<(u8, u32, u32)>, i: int)
    requires
        0 <= i <= coords.len(),
        first_row_error(coords.take(i)) is Some,
    ensures
        first_row_error(coords) == first_row_error(coords.take(i)),
    decreases coords.len() - i,
{
    if i < coords.len() {
        assert(coords.take(i + 1).drop_last() =~= coords.take(i));
        lemma_row_error_stays(coords, i + 1);
    } else {
        assert(coords.take(i) =~= coords);
    }
}

/// Put stored tiles, given as (zoom, column, row from the south), in the order
/// of the curve: what makes an archive clustered, and what lets a client
/// panning the map use ranges that it has already fetched.
#[verifier::loop_isolation(false)]
pub fn plan_export(coords: &Vec<(u8, u32, u32)>) -> (res: Result<ExportPlan, ExportError>)
    ensures
        match res {
            Ok(plan) => {
                &&& coords@.len() > 0
                &&& first_row_error(coords@) is None
                &&& ascending_numbers(planned_numbers(plan.tiles@))
                &&& planned_numbers(plan.tiles@).to_multiset() == row_numbers(
                    coords@,
                ).to_multiset()
                &&& forall|i: int| 0 <= i < plan.tiles@.len() ==> planned_well(#[trigger] plan.tiles@[i])
                &&& forall|i: int|
                    0 <= i < coords@.len() ==> plan.min_zoom <= (#[trigger] coords@[i]).0
                        <= plan.max_zoom
                &&& exists|i: int| 0 <= i < coords@.len() && (#[trigger] coords@[i]).0 == plan.min_zoom
                &&& exists|i: int| 0 <= i < coords@.len() && (#[trigger] coords@[i]).0 == plan.max_zoom
            },
            Err(e) => if first_row_error(coords@) is Some {
                Some(e) == first_row_error(coords@)
            } else {
                coords@.len() == 0 && e == ExportError::NoTiles
            },
        },
{
    let mut numbers: Vec<u128> = Vec::new();
    let mut min_zoom: u8 = u8::MAX;
    let mut max_zoom: u8 = 0;
    let ghost mut lowest: int = 0;
    let ghost mut highest: int = 0;
    proof {
        assert(coords@.take(0) =~= Seq::<(u8, u32, u32)>::empty());
    }
    for i in 0..coords.len()
        invariant
            first_row_error(coords@.take(i as int)) is None,
            numbers@.len() == i,
            forall|k: int|
                0 <= k < i ==> #[trigger] numbers@[k] == row_number(coords@[k]) && numbers@[k]
                    < zoom_base(31),
            forall|k: int| 0 <= k < i ==> min_zoom <= (#[trigger] coords@[k]).0 <= max_zoom,
            i == 0 ==> min_zoom == u8::MAX && max_zoom == 0,
            i > 0 ==> 0 <= lowest < i && coords@[lowest].0 == min_zoom,
            i > 0 ==> 0 <= highest < i && coords@[highest].0 == max_zoom,
    {
        let (z, x, tms_y): (u8, u32, u32) = coords[i];
        proof {
            assert(coords@.take(i + 1).last() == coords@[i as int]);
            assert(coords@.take(i + 1).drop_last() =~= coords@.take(i as int));
        }
        let y: u32 = match flip_y(z, x, tms_y) {
            Ok(y) => y,
            Err(e) => {
                proof {
                    lemma_row_error_stays(coords@, i as int + 1);
                }
                return Err(e);
            },
        };
        if z < min_zoom || i == 0 {
            min_zoom = z;
            proof {
                lowest = i as int;
            }
        }
        if z > max_zoom || i == 0 {
            max_zoom = z;
            proof {
                highest = i as int;
            }
        }
        let id: u64 = tile_id(z, x, y);
        proof {
            lemma_zoom_base_monotonic(z as nat + 1, 31);
        }
        numbers.push(id as u128);
    }
    proof {
        assert(coords@.take(coords@.len() as int) =~= coords@);
        assert(numbers@ =~= row_numbers(coords@));
    }
    if coords.len() == 0 {
        return Err(ExportError::NoTiles);
    }
    let ghost unsorted = numbers@;
    sort_numbers(&mut numbers);
    proof {
        lemma_same_members(unsorted, numbers@);
    }
    let mut tiles: Vec<PlannedTile> = Vec::with_capacity(numbers.len());
    for i in 0..numbers.len()
        invariant
            tiles@.len() == i,
            forall|k: int|
                0 <= k < i ==> planned_well(#[trigger] tiles@[k]) && tiles@[k].id == numbers@[k],
    {
        proof {
            assert(numbers@.contains(numbers@[i as int]));
            assert(unsorted.contains(numbers@[i as int]));
            let k = choose|k: int| 0 <= k < unsorted.len() && unsorted[k] == numbers@[i as int];
            assert(unsorted[k] < zoom_base(31));
            lemma_zoom_base_monotonic(31, 32);
            lemma_zoom_base_fits(31);
        }
        let id: u64 = numbers[i] as u64;
        if let Ok((z, x, y)) = tile_id_to_zxy(id) {
            proof {
                if z >= 31 {
                    lemma_zoom_base_monotonic(31, z as nat);
                }
            }
            let tms_y: u32 = tiles_across(z) - 1 - y;
            tiles.push(PlannedTile { id, z, x, tms_y });
        }
    }
    proof {
        assert(planned_numbers(tiles@) =~= numbers@);
    }
    Ok(ExportPlan { tiles, min_zoom, max_zoom })
}

/// A plan for tiles that differ has strictly ascending numbers: no tile is
/// written twice, and none is written under another's number.
pub proof fn lemma_plan_is_strict(coords: Seq<(u8, u32, u32)>, tiles: Seq<PlannedTile>)
    requires
        coords.no_duplicates(),
        first_row_error(coords) is None,
        ascending_numbers(planned_numbers(tiles)),
        planned_numbers(tiles).to_multiset() == row_numbers(coords).to_multiset(),
    ensures
        forall|i: int, j: int|
            0 <= i < j < tiles.len() ==> (#[trigger] tiles[i]).id < (#[trigger] tiles[j]).id,
{
    let rows = row_numbers(coords);
    let planned = planned_numbers(tiles);
    assert(rows.no_duplicates()) by {
        assert forall|i: int, j: int| 0 <= i < j < rows.len() implies rows[i] != rows[j] by {
            lemma_rows_are_right(coords, i);
            lemma_rows_are_right(coords, j);
            let (z1, x1, y1) = coords[i];
            let (z2, x2, y2) = coords[j];
            lemma_row_number_fits(coords[i]);
            lemma_row_number_fits(coords[j]);
            if rows[i] == rows[j] {
                lemma_tile_numbers_are_unique(
                    z1 as nat,
                    x1 as int,
                    flipped(z1, y1 as int),
                    z2 as nat,
                    x2 as int,
                    flipped(z2, y2 as int),
                );
                assert(coords[i] == coords[j]);
            }
        }
    }
    rows.lemma_multiset_has_no_duplicates();
    planned.lemma_multiset_has_no_duplicates_conv();
    assert forall|i: int, j: int| 0 <= i < j < tiles.len() implies (#[trigger] tiles[i]).id < (
    #[trigger] tiles[j]).id by {
        assert(planned[i] <= planned[j]);
        assert(planned[i] != planned[j]);
    }
}

proof fn lemma_rows_are_right(coords: Seq<(u8, u32, u32)>, i: int)
    requires
        0 <= i < coords.len(),
        first_row_error(coords) is None,
    ensures
        row_error(coords[i].0, coords[i].1, coords[i].2) is None,
    decreases coords.len(),
{
    if i < coords.len() - 1 {
        assert(coords.drop_last()[i] == coords[i]);
        lemma_rows_are_right(coords.drop_last(), i);
    }
}

proof fn lemma_row_number_fits(coord: (u8, u32, u32))
    requires
        row_error(coord.0, coord.1, coord.2) is None,
    ensures
        row_number(coord) == tile_number(
            coord.0 as nat,
            coord.1 as int,
            flipped(coord.0, coord.2 as int),
        ),
{
    let z = coord.0 as nat;
    lemma_tile_number_round_trip(z, coord.1 as int, flipped(coord.0, coord.2 as int));
    lemma_zoom_base_fits(z + 1);
    lemma_zoom_base_monotonic(0, z);
}

/// What the header says beside the layout: the zooms and the place on the map,
/// in ten-millionths of a degree.
#[derive(Debug, Clone, Copy, PartialEq, Eq)]
pub struct Placement {
    pub min_zoom: u8,
    pub max_zoom: u8,
    pub bounds: (i32, i32, i32, i32),
    pub center_zoom: u8,
    pub center: (i32, i32),
}

/// The start of an archive: all that stands before the tile data.
#[derive(Debug)]
pub struct ArchiveHead {
    pub header: Header,
    pub bytes: Vec<u8>,
    pub leaf_directories: usize,
}

/// The header of an archive whose sections stand one behind the other.
pub open spec fn laid_out(
    root: nat,
    metadata: nat,
    leaves: nat,
    p: Packed,
    addressed: nat,
    place: Placement,
) -> Header {
    Header {
        root_offset: 127,
        root_length: root as u64,
        metadata_offset: (127 + root) as u64,
        metadata_length: metadata as u64,
        leaf_offset: (127 + root + metadata) as u64,
        leaf_length: leaves as u64,
        data_offset: (127 + root + metadata + leaves) as u64,
        data_length: p.data_len as u64,
        addressed_tiles: addressed as u64,
        tile_entries: p.entries.len() as u64,
        tile_contents: p.blobs.len() as u64,
        clustered: true,
        internal_compression: Compressed::Gzip,
        tile_compression: Compressed::Gzip,
        tile_type: TileType::Mvt,
        min_zoom: place.min_zoom,
        max_zoom: place.max_zoom,
        bounds: place.bounds,
        center_zoom: place.center_zoom,
        center: place.center,
    }
}

/// An archive reads as what was put into it: its header is its own, it passes
/// its check, every tile comes back as it was stored, and no other tile number
/// leads to a tile.
pub open spec fn reads_as(file: Seq<u8>, h: Header, tiles: Seq<NumberedTile>) -> bool {
    &&& parse_header(file) == Ok::<Header, HeaderError>(h)
    &&& check_archive(file, h) == Ok::<(), ArchiveError>(())
    &&& forall|i: int|
        0 <= i < tiles.len() && (#[trigger] tiles[i]).0 < u64::MAX ==> archive_tile(
            file,
            h,
            tiles[i].0,
        ) == Ok::<Option<Seq<u8>>, ArchiveError>(Some(tiles[i].1))
    &&& forall|id: u64|
        !numbered(tiles, id) ==> #[trigger] archive_tile(file, h, id) == Ok::<
            Option<Seq<u8>>,
            ArchiveError,
        >(None)
}

/// The bytes of an archive.
pub open spec fn archive_bytes(
    h: Header,
    root: Seq<u8>,
    metadata: Seq<u8>,
    leaves: Seq<u8>,
    data: Seq<u8>,
) -> Seq<u8> {
    header_bytes(h) + root + metadata + leaves + data
}

/// Each section stands where the header says.
proof fn lemma_sections(
    h: Header,
    root: Seq<u8>,
    metadata: Seq<u8>,
    leaves: Seq<u8>,
    data: Seq<u8>,
)
    ensures
        ({
            let file = archive_bytes(h, root, metadata, leaves, data);
            let r = root.len() as int;
            let m = metadata.len() as int;
            let l = leaves.len() as int;
            &&& file.len() == 127 + r + m + l + data.len()
            &&& file.subrange(127, 127 + r) == root
            &&& forall|a: int, b: int|
                0 <= a <= b <= l ==> #[trigger] leaves.subrange(a, b) == file.subrange(
                    127 + r + m + a,
                    127 + r + m + b,
                )
            &&& forall|a: int, b: int|
                0 <= a <= b <= data.len() ==> #[trigger] data.subrange(a, b) == file.subrange(
                    127 + r + m + l + a,
                    127 + r + m + l + b,
                )
        }),
{
    let file = archive_bytes(h, root, metadata, leaves, data);
    let r = root.len() as int;
    let m = metadata.len() as int;
    let l = leaves.len() as int;
    assert(file.subrange(127, 127 + r) =~= root);
    assert forall|a: int, b: int| 0 <= a <= b <= l implies #[trigger] leaves.subrange(a, b)
        == file.subrange(127 + r + m + a, 127 + r + m + b) by {
        assert(leaves.subrange(a, b) =~= file.subrange(127 + r + m + a, 127 + r + m + b));
    }
    assert forall|a: int, b: int| 0 <= a <= b <= data.len() implies #[trigger] data.subrange(a, b)
        == file.subrange(127 + r + m + l + a, 127 + r + m + l + b) by {
        assert(data.subrange(a, b) =~= file.subrange(127 + r + m + l + a, 127 + r + m + l + b));
    }
}

/// Leaves lie where their pointers say, behind the archive's leaf offset.
spec fn leaves_in_file(file: Seq<u8>, h: Header, leaves: Seq<u8>) -> bool {
    &&& h.leaf_offset + leaves.len() <= file.len()
    &&& file.len() <= u64::MAX
    &&& forall|a: int, b: int|
        0 <= a <= b <= leaves.len() ==> #[trigger] leaves.subrange(a, b) == file.subrange(
            h.leaf_offset + a,
            h.leaf_offset + b,
        )
}

proof fn lemma_leaf_directory(
    file: Seq<u8>,
    h: Header,
    pointer: Entry,
    leaves: Seq<u8>,
    entries: Seq<Entry>,
    size: nat,
    i: nat,
)
    requires
        leaves_in_file(file, h, leaves),
        points_to_leaf(pointer, leaves, entries, size, i),
    ensures
        h.leaf_offset + pointer.offset <= u64::MAX,
        directory_at(file, (h.leaf_offset + pointer.offset) as u64, pointer.length as u64) == Ok::<
            Seq<Entry>,
            ArchiveError,
        >(leaf_chunk(entries, size, i)),
{
    assert(pointed_to(leaves, pointer) == leaves.subrange(
        pointer.offset as int,
        pointer.offset + pointer.length,
    ));
}

/// A lookup through leaves finds what a lookup in the whole directory would.
proof fn lemma_lookup_through_leaves(
    file: Seq<u8>,
    h: Header,
    root: Seq<u8>,
    leaves: Seq<u8>,
    entries: Seq<Entry>,
    size: nat,
    id: u64,
)
    requires
        leaves_in_file(file, h, leaves),
        indexes_by_leaves(root, leaves, entries, size),
        crate::pmtiles::directory::sorted(entries),
        forall|k: int| 0 <= k < entries.len() ==> (#[trigger] entries[k]).run_length > 0,
    ensures
        lookup_in(file, h, stored_directory(root)->0, id, 2) == lookup_in(file, h, entries, id, 1),
{
    let pointers = stored_directory(root)->0;
    let n = entries.len();
    if last_at_most(entries, id) is None {
        if last_at_most(pointers, id) is Some {
            lemma_last_at_most_is_entry(pointers, id);
            let k = choose|k: int|
                0 <= k < pointers.len() && #[trigger] pointers[k] == last_at_most(pointers, id)->0
                    && pointers[k].tile_id <= id;
            assert(points_to_leaf(pointers[k], leaves, entries, size, k as nat));
            lemma_leaf_count(n, size, k as nat);
            assert(0 <= k * size) by (nonlinear_arith)
                requires
                    0 <= k,
                    0 < size,
            ;
            lemma_some_at_most(entries, k * size, id);
        }
    } else {
        lemma_last_index(entries, id);
        let j = choose|j: int| #[trigger] is_last_index(entries, id, j);
        let i = j / size as int;
        vstd::arithmetic::div_mod::lemma_fundamental_div_mod(j, size as int);
        vstd::arithmetic::div_mod::lemma_mod_bound(j, size as int);
        let r = j % size as int;
        assert(0 <= i && i * size <= j < (i + 1) * size) by (nonlinear_arith)
            requires
                j == size * i + r,
                0 <= r < size,
                0 <= j,
                0 < size,
        ;
        lemma_leaf_count(n, size, i as nat);
        assert(points_to_leaf(pointers[i], leaves, entries, size, i as nat));
        assert(pointers[i].tile_id <= id) by {
            assert(entries[i * size].tile_id <= entries[j].tile_id);
        }
        assert forall|l: int| i < l < pointers.len() implies (#[trigger] pointers[l]).tile_id
            > id by {
            assert(points_to_leaf(pointers[l], leaves, entries, size, l as nat));
            lemma_leaf_count(n, size, l as nat);
            assert((i + 1) * size <= l * size) by (nonlinear_arith)
                requires
                    i + 1 <= l,
                    0 < size,
            ;
            assert(entries[l * size].tile_id > id);
        }
        lemma_last_at_most(pointers, i, id);
        lemma_leaf_directory(file, h, pointers[i], leaves, entries, size, i as nat);
        let chunk = leaf_chunk(entries, size, i as nat);
        let d = j - i * size;
        assert(chunk[d] == entries[j]);
        assert forall|l: int| d < l < chunk.len() implies (#[trigger] chunk[l]).tile_id > id by {
            assert(chunk[l] == entries[i * size + l]);
        }
        lemma_last_at_most(chunk, d, id);
        assert(lookup_in(file, h, chunk, id, 1) == lookup_in(file, h, entries, id, 1));
        assert(lookup_in(file, h, pointers, id, 2) == lookup_in(file, h, chunk, id, 1));
    }
}

spec fn is_last_index(entries: Seq<Entry>, id: u64, j: int) -> bool {
    &&& 0 <= j < entries.len()
    &&& last_at_most(entries, id) == Some(entries[j])
    &&& entries[j].tile_id <= id
    &&& forall|l: int| j < l < entries.len() ==> (#[trigger] entries[l]).tile_id > id
}

proof fn lemma_last_index(entries: Seq<Entry>, id: u64)
    requires
        last_at_most(entries, id) is Some,
    ensures
        exists|j: int| #[trigger] is_last_index(entries, id, j),
    decreases entries.len(),
{
    let n = entries.len() - 1;
    assert(entries.last() == entries[n]);
    if entries.last().tile_id <= id {
        assert(is_last_index(entries, id, n));
    } else {
        let front = entries.drop_last();
        lemma_last_index(front, id);
        let j = choose|j: int| #[trigger] is_last_index(front, id, j);
        assert(front[j] == entries[j]);
        assert forall|l: int| j < l < entries.len() implies (#[trigger] entries[l]).tile_id
            > id by {
            if l < n {
                assert(front[l] == entries[l]);
            }
        }
        assert(is_last_index(entries, id, j));
    }
}

proof fn lemma_some_at_most(entries: Seq<Entry>, k: int, id: u64)
    requires
        0 <= k < entries.len(),
        entries[k].tile_id <= id,
    ensures
        last_at_most(entries, id) is Some,
    decreases entries.len(),
{
    if entries.last().tile_id > id {
        assert(k < entries.len() - 1);
        assert(entries.drop_last()[k] == entries[k]);
        lemma_some_at_most(entries.drop_last(), k, id);
    }
}

proof fn lemma_no_first_error(entries: Seq<Entry>, data_length: u64)
    requires
        forall|k: int|
            0 <= k < entries.len() ==> entry_error(#[trigger] entries[k], data_length) is None,
    ensures
        first_error(entries, data_length) is None,
    decreases entries.len(),
{
    if entries.len() > 0 {
        let front = entries.drop_last();
        assert forall|k: int| 0 <= k < front.len() implies entry_error(
            #[trigger] front[k],
            data_length,
        ) is None by {
            assert(front[k] == entries[k]);
        }
        lemma_no_first_error(front, data_length);
        assert(entries.last() == entries[entries.len() - 1]);
    }
}

/// A check over a root that holds the entries itself succeeds.
proof fn lemma_check_root(file: Seq<u8>, h: Header, entries: Seq<Entry>, i: nat)
    requires
        i <= entries.len(),
        h.tile_entries == entries.len(),
        forall|k: int|
            0 <= k < entries.len() ==> entry_error(#[trigger] entries[k], h.data_length) is None
                && entries[k].run_length > 0,
    ensures
        check_from(file, h, entries, i, i) == Ok::<(), ArchiveError>(()),
    decreases entries.len() - i,
{
    if i < entries.len() {
        lemma_check_root(file, h, entries, i + 1);
        assert(entry_error(entries[i as int], h.data_length) is None);
    }
}

/// A check through leaves succeeds.
proof fn lemma_check_leaves(
    file: Seq<u8>,
    h: Header,
    pointers: Seq<Entry>,
    leaves: Seq<u8>,
    entries: Seq<Entry>,
    size: nat,
    i: nat,
    found: nat,
)
    requires
        size > 0,
        leaves_in_file(file, h, leaves),
        pointers.len() == leaf_count(entries.len(), size),
        crate::pmtiles::leaves::points_to_leaves(pointers, leaves, entries, size),
        i <= pointers.len(),
        found == (if i * size < entries.len() { i * size } else { entries.len() }),
        h.tile_entries == entries.len(),
        forall|k: int|
            0 <= k < entries.len() ==> entry_error(#[trigger] entries[k], h.data_length) is None,
    ensures
        check_from(file, h, pointers, i, found) == Ok::<(), ArchiveError>(()),
    decreases pointers.len() - i,
{
    lemma_leaf_count(entries.len(), size, i);
    if i < pointers.len() {
        let pointer = pointers[i as int];
        assert(points_to_leaf(pointer, leaves, entries, size, i));
        lemma_leaf_directory(file, h, pointer, leaves, entries, size, i);
        let chunk = leaf_chunk(entries, size, i);
        assert((i + 1) * size == i * size + size) by (nonlinear_arith);
        assert forall|k: int| 0 <= k < chunk.len() implies entry_error(
            #[trigger] chunk[k],
            h.data_length,
        ) is None by {
            assert(chunk[k] == entries[i * size + k]);
        }
        lemma_no_first_error(chunk, h.data_length);
        lemma_check_leaves(
            file,
            h,
            pointers,
            leaves,
            entries,
            size,
            i + 1,
            found + chunk.len(),
        );
        assert(check_after_leaf(file, h, pointers, i, found, chunk) == check_from(
            file,
            h,
            pointers,
            i + 1,
            found + chunk.len(),
        ));
    }
}

/// What is written is what is read. An archive laid out from packed tiles reads
/// as those tiles: each comes back byte for byte, and nothing else is there.
#[verifier::spinoff_prover]
pub proof fn lemma_archive_reads_back(
    tiles: Seq<NumberedTile>,
    root: Seq<u8>,
    metadata: Seq<u8>,
    leaves: Seq<u8>,
    place: Placement,
)
    requires
        acceptable(tiles),
        ascending(tiles),
        no_collisions(tiles),
        statable(tiles),
        indexes(root, leaves, pack(tiles).entries),
        pack(tiles).entries.len() <= u64::MAX,
        127 + root.len() + metadata.len() + leaves.len() + pack(tiles).data.len() <= u64::MAX,
    ensures
        ({
            let p = pack(tiles);
            let h = laid_out(root.len(), metadata.len(), leaves.len(), p, tiles.len(), place);
            reads_as(archive_bytes(h, root, metadata, leaves, p.data), h, tiles)
        }),
{
    let p = pack(tiles);
    let h = laid_out(root.len(), metadata.len(), leaves.len(), p, tiles.len(), place);
    let file = archive_bytes(h, root, metadata, leaves, p.data);
    lemma_pack_holds_exactly(tiles);
    lemma_sections(h, root, metadata, leaves, p.data);
    assert(file =~= header_bytes(h) + (root + metadata + leaves + p.data));
    lemma_header_round_trip(h, root + metadata + leaves + p.data);
    assert(leaves_in_file(file, h, leaves));
    assert(directory_at(file, h.root_offset, h.root_length) == parse_stored(root));
    assert(stored_directory(root) is Some);
    let top = stored_directory(root)->0;
    assert forall|k: int| 0 <= k < p.entries.len() implies entry_error(
        #[trigger] p.entries[k],
        h.data_length,
    ) is None by {
        assert(p.entries[k].offset + p.entries[k].length <= p.data_len);
    }
    assert(check_archive(file, h) == Ok::<(), ArchiveError>(())) by {
        if top == p.entries {
            lemma_check_root(file, h, p.entries, 0);
        } else {
            let size = choose|size: nat| #[trigger]
                indexes_by_leaves(root, leaves, p.entries, size);
            lemma_check_leaves(file, h, top, leaves, p.entries, size, 0, 0);
        }
    }
    assert forall|id: u64| #[trigger] archive_tile(file, h, id) == lookup_in(
        file,
        h,
        p.entries,
        id,
        1,
    ) by {
        if top == p.entries {
            lemma_lookup_in_tiles(file, h, p.entries, id);
        } else {
            let size = choose|size: nat| #[trigger]
                indexes_by_leaves(root, leaves, p.entries, size);
            lemma_lookup_through_leaves(file, h, root, leaves, p.entries, size, id);
        }
    }
    assert forall|i: int| 0 <= i < tiles.len() && (#[trigger] tiles[i]).0 < u64::MAX implies archive_tile(
        file,
        h,
        tiles[i].0,
    ) == Ok::<Option<Seq<u8>>, ArchiveError>(Some(tiles[i].1)) by {
        let id = tiles[i].0;
        assert(holds(p, id, tiles[i].1));
        let k = choose|k: int| #[trigger] covers(p, k, id) && entry_data(p, k) == tiles[i].1;
        lemma_covering_entry_is_found(p, k, id);
        let e = p.entries[k];
        assert(e.offset + e.length <= p.data_len);
        assert(entry_data(p, k) == p.data.subrange(e.offset as int, e.offset + e.length));
        assert(section(file, (h.data_offset + e.offset) as u64, e.length as u64) == Ok::<
            Seq<u8>,
            ArchiveError,
        >(tiles[i].1));
    }
    assert forall|id: u64| !numbered(tiles, id) implies #[trigger] archive_tile(file, h, id)
        == Ok::<Option<Seq<u8>>, ArchiveError>(None) by {
        assert forall|k: int| !(#[trigger] covers(p, k, id)) by {
            if covers(p, k, id) {
                assert(numbered(tiles, id));
            }
        }
        lemma_uncovered_number(p, id);
    }
}

/// The counts of an archive fit together: there are no more blobs than entries,
/// no more entries than tiles, and the data ends within what an offset can say.
pub proof fn lemma_counts_fit_together(
    root: nat,
    metadata: nat,
    leaves: nat,
    tiles: Seq<NumberedTile>,
    place: Placement,
)
    requires
        acceptable(tiles),
        tiles.len() <= u64::MAX,
        127 + root + metadata + leaves + pack(tiles).data_len <= u64::MAX,
    ensures
        ({
            let h = laid_out(root, metadata, leaves, pack(tiles), tiles.len(), place);
            &&& h.tile_contents <= h.tile_entries <= h.addressed_tiles
            &&& h.data_offset + h.data_length <= u64::MAX
        }),
{
    lemma_pack_is_sound(tiles);
}

/// Every tile of a store is at its own coordinates in the archive: the archive
/// holds for a column and a row from the north what was stored for the column
/// and that row from the south, and nothing for a tile that the store does not
/// have.
pub proof fn lemma_tiles_are_at_their_coordinates(
    coords: Seq<(u8, u32, u32)>,
    plan: Seq<PlannedTile>,
    tiles: Seq<NumberedTile>,
    file: Seq<u8>,
    h: Header,
    z: u8,
    x: u32,
    y: u32,
)
    requires
        first_row_error(coords) is None,
        planned_numbers(plan).to_multiset() == row_numbers(coords).to_multiset(),
        forall|i: int| 0 <= i < plan.len() ==> planned_well(#[trigger] plan[i]),
        tiles.len() == plan.len(),
        forall|i: int| 0 <= i < plan.len() ==> (#[trigger] tiles[i]).0 == plan[i].id,
        reads_as(file, h, tiles),
        z <= 30,
        x < side(z as nat),
        y < side(z as nat),
    ensures
        forall|i: int|
            0 <= i < plan.len() && (#[trigger] plan[i]).z == z && plan[i].x == x && flipped(
                z,
                plan[i].tms_y as int,
            ) == y ==> archive_tile(file, h, tile_number(z as nat, x as int, y as int) as u64)
                == Ok::<Option<Seq<u8>>, ArchiveError>(Some(tiles[i].1)),
        !coords.contains((z, x, flipped(z, y as int) as u32)) ==> archive_tile(
            file,
            h,
            tile_number(z as nat, x as int, y as int) as u64,
        ) == Ok::<Option<Seq<u8>>, ArchiveError>(None),
{
    let row = (z, x, flipped(z, y as int) as u32);
    let id = tile_number(z as nat, x as int, y as int) as u64;
    vstd::arithmetic::power2::lemma2_to64();
    vstd::arithmetic::power2::lemma_pow2_strictly_increases(z as nat, 31);
    assert(row_error(row.0, row.1, row.2) is None);
    lemma_row_number_fits(row);
    lemma_tile_number_round_trip(z as nat, x as int, y as int);
    lemma_zoom_base_fits(z as nat + 1);
    lemma_zoom_base_monotonic(0, z as nat);
    assert forall|i: int|
        0 <= i < plan.len() && (#[trigger] plan[i]).z == z && plan[i].x == x && flipped(
            z,
            plan[i].tms_y as int,
        ) == y implies archive_tile(file, h, id) == Ok::<Option<Seq<u8>>, ArchiveError>(
        Some(tiles[i].1),
    ) by {
        assert(tiles[i].0 == plan[i].id);
    }
    if !coords.contains(row) && numbered(tiles, id) {
        let i = choose|i: int| 0 <= i < tiles.len() && (#[trigger] tiles[i]).0 == id;
        assert(plan[i].id == id);
        lemma_same_members(planned_numbers(plan), row_numbers(coords));
        assert(planned_numbers(plan)[i] == id as u128);
        assert(planned_numbers(plan).contains(id as u128));
        let j = choose|j: int| 0 <= j < coords.len() && row_numbers(coords)[j] == id as u128;
        lemma_rows_are_right(coords, j);
        lemma_row_number_fits(coords[j]);
        lemma_tile_numbers_are_unique(
            coords[j].0 as nat,
            coords[j].1 as int,
            flipped(coords[j].0, coords[j].2 as int),
            z as nat,
            x as int,
            y as int,
        );
        assert(coords[j] == row);
        assert(false);
    }
}

/// Among tile entries one directory is enough.
proof fn lemma_lookup_in_tiles(file: Seq<u8>, h: Header, entries: Seq<Entry>, id: u64)
    requires
        forall|k: int| 0 <= k < entries.len() ==> (#[trigger] entries[k]).run_length > 0,
    ensures
        lookup_in(file, h, entries, id, 2) == lookup_in(file, h, entries, id, 1),
{
    if last_at_most(entries, id) is Some {
        lemma_last_at_most_is_entry(entries, id);
    }
}

impl ArchiveBuilder {
    /// Finish the archive: everything that stands before the tile data.
    ///
    /// What is returned, followed by the tile data, is the archive, and it
    /// reads as the tiles that were added, as long as no two different tiles
    /// have the same digest.
    pub fn finish(&self, metadata: &str, place: &Placement) -> (res: Result<
        ArchiveHead,
        ExportError,
    >)
        requires
            self.wf(),
        ensures
            ({
                let p = pack(self.tiles());
                let built = directories(p.entries);
                let meta = gzip_of(encode_utf8(metadata@));
                let (root, leaves, count) = built->Ok_0;
                let size = 127 + root.len() + meta->0.len() + leaves.len() + p.data_len;
                match res {
                    Ok(head) => {
                        &&& built is Ok
                        &&& meta is Some
                        &&& size <= u64::MAX
                        &&& head.header == laid_out(
                            root.len(),
                            meta->0.len(),
                            leaves.len(),
                            p,
                            self.tiles().len(),
                            *place,
                        )
                        &&& head.bytes@ == header_bytes(head.header) + root + meta->0 + leaves
                        &&& head.leaf_directories == count
                        &&& ascending(self.tiles()) && no_collisions(self.tiles()) && statable(
                            self.tiles(),
                        ) && readable(p.entries.len(), count) && written_statable(p.entries, count)
                            ==> reads_as(head.bytes@ + p.data, head.header, self.tiles())
                    },
                    Err(ExportError::Build(e)) => built == Err::<
                        (Seq<u8>, Seq<u8>, nat),
                        BuildError,
                    >(e),
                    Err(ExportError::Compression) => built is Ok && meta is None,
                    Err(ExportError::TooLarge) => built is Ok && meta is Some && size > u64::MAX,
                    Err(_) => false,
                }
            }),
    {
        let ghost p = pack(self.tiles());
        let data_len: u64 = self.data_length();
        proof {
            assert forall|k: int| 0 <= k < p.entries.len() - 1 implies entry_end(#[trigger] p.entries[k]) <= u64::MAX by {}
            assert forall|k: int| 0 <= k < p.entries.len() implies (#[trigger] p.entries[k]).offset
                < u64::MAX by {}
        }
        let entries: &Vec<Entry> = self.entries();
        let (root, leaves, count): (Vec<u8>, Vec<u8>, usize) = match build_directories(
            entries.as_slice(),
        ) {
            Ok(built) => built,
            Err(e) => {
                return Err(ExportError::Build(e));
            },
        };
        let meta: Vec<u8> = match gzip(metadata.as_bytes()) {
            Ok(meta) => meta,
            Err(_) => {
                return Err(ExportError::Compression);
            },
        };
        let root_len: u64 = root.len() as u64;
        let meta_len: u64 = meta.len() as u64;
        let leaves_len: u64 = leaves.len() as u64;
        let before_meta: u64 = HEADER_LEN as u64 + root_len;
        if meta_len > u64::MAX - before_meta {
            return Err(ExportError::TooLarge);
        }
        let before_leaves: u64 = before_meta + meta_len;
        if leaves_len > u64::MAX - before_leaves {
            return Err(ExportError::TooLarge);
        }
        let before_data: u64 = before_leaves + leaves_len;
        if data_len > u64::MAX - before_data {
            return Err(ExportError::TooLarge);
        }
        let header: Header = Header {
            root_offset: HEADER_LEN as u64,
            root_length: root_len,
            metadata_offset: before_meta,
            metadata_length: meta_len,
            leaf_offset: before_leaves,
            leaf_length: leaves_len,
            data_offset: before_data,
            data_length: data_len,
            addressed_tiles: self.addressed_tiles(),
            tile_entries: entries.len() as u64,
            tile_contents: self.tile_contents(),
            clustered: true,
            internal_compression: Compressed::Gzip,
            tile_compression: Compressed::Gzip,
            tile_type: TileType::Mvt,
            min_zoom: place.min_zoom,
            max_zoom: place.max_zoom,
            bounds: place.bounds,
            center_zoom: place.center_zoom,
            center: place.center,
        };
        let mut bytes: Vec<u8> = Vec::new();
        let stored: [u8; HEADER_LEN] = header.to_bytes();
        bytes.extend_from_slice(stored.as_slice());
        assert(bytes@ =~= header_bytes(header));
        bytes.extend_from_slice(root.as_slice());
        assert(bytes@ =~= header_bytes(header) + root@);
        bytes.extend_from_slice(meta.as_slice());
        assert(bytes@ =~= header_bytes(header) + root@ + meta@);
        bytes.extend_from_slice(leaves.as_slice());
        assert(bytes@ =~= header_bytes(header) + root@ + meta@ + leaves@);
        proof {
            if ascending(self.tiles()) && no_collisions(self.tiles()) && statable(self.tiles())
                && readable(p.entries.len(), count as nat) && written_statable(
                p.entries,
                count as nat,
            ) {
                self.lemma_wf_tiles();
                lemma_pack_holds_exactly(self.tiles());
                lemma_archive_reads_back(self.tiles(), root@, meta@, leaves@, *place);
            }
        }
        Ok(ArchiveHead { header, bytes, leaf_directories: count })
    }
}

/// Where the sample of a directory of more than 64 entries is taken: 64 evenly
/// spaced places, which do not end among the first 64.
pub open spec fn sample_place(n: int, i: int) -> int {
    if n < 128 {
        i * (n - 1) / 63
    } else {
        i * (n / 64)
    }
}

/// Spread a sample across the archive, so that a wrong coordinate anywhere
/// shows up: all tile numbers of a small directory, else 64 evenly spaced ones.
pub open spec fn sampled(entries: Seq<Entry>) -> Seq<u64> {
    if entries.len() <= 64 {
        Seq::new(entries.len(), |i: int| entries[i].tile_id)
    } else {
        Seq::new(64, |i: int| entries[sample_place(entries.len() as int, i)].tile_id)
    }
}

proof fn lemma_sample_places(n: int, i: int, j: int)
    requires
        64 < n,
        0 <= i < j < 64,
    ensures
        sample_place(n, 0) == 0,
        0 <= sample_place(n, i) < sample_place(n, j) < n,
        64 <= sample_place(n, 63) < n,
        j == i + 1 ==> sample_place(n, j) - sample_place(n, i) <= (n + 61) / 63,
{
    if n < 128 {
        assert(0 <= i * (n - 1) / 63 < j * (n - 1) / 63 < n && (j == i + 1 ==> j * (n - 1) / 63 - i
            * (n - 1) / 63 <= (n + 61) / 63)) by (nonlinear_arith)
            requires
                64 < n,
                0 <= i < j < 64,
        ;
    } else {
        let step = n / 64;
        assert(0 <= i * step < j * step <= 63 * step && (j == i + 1 ==> j * step - i * step == step))
            by (nonlinear_arith)
            requires
                2 <= step,
                0 <= i < j < 64,
        ;
    }
}

/// The tile numbers to re-read from a finished archive. Of more than 64 entries
/// one behind the first 64 is among them.
pub fn sample_tile_ids(entries: &[Entry]) -> (ids: Vec<u64>)
    ensures
        ids@ == sampled(entries@),
        entries@.len() > 64 ==> exists|k: int|
            64 <= k < entries@.len() && ids@.contains((#[trigger] entries@[k]).tile_id),
{
    let n: usize = entries.len();
    let count: usize = if n <= 64 { n } else { 64 };
    let mut ids: Vec<u64> = Vec::with_capacity(count);
    for i in 0..count
        invariant
            n == entries@.len(),
            count == (if n <= 64 {
                n
            } else {
                64
            }),
            ids@ == sampled(entries@).take(i as int),
    {
        proof {
            if n > 64 {
                if i < 63 {
                    lemma_sample_places(n as int, i as int, 63);
                } else {
                    lemma_sample_places(n as int, 0, 63);
                }
                if n >= 128 {
                    assert(0 <= i * (n / 64) <= 63 * (n / 64)) by (nonlinear_arith)
                        requires
                            0 <= i < 64,
                            n >= 128,
                    ;
                }
            }
        }
        let place: usize = if n <= 64 {
            i
        } else if n < 128 {
            assert(i * (n - 1) <= 63 * 127) by (nonlinear_arith)
                requires
                    0 <= i < 64,
                    64 < n < 128,
            ;
            i * (n - 1) / 63
        } else {
            i * (n / 64)
        };
        ids.push(entries[place].tile_id);
        assert(sampled(entries@).take(i as int + 1) =~= sampled(entries@).take(i as int).push(
            sampled(entries@)[i as int],
        ));
    }
    assert(sampled(entries@).take(count as int) =~= sampled(entries@));
    proof {
        if n > 64 {
            lemma_sample_places(n as int, 0, 63);
            let k = sample_place(n as int, 63);
            assert(ids@[63] == entries@[k].tile_id);
        }
    }
    ids
}

/// A sample of a long directory has 64 tile numbers: that of the first entry, and
/// then of further ones in the order of the directory, some of them behind the
/// first 64, at distances of at most a 63rd of the directory, rounded up. If the
/// directory is in ascending order, so is the sample.
pub proof fn lemma_sample_is_spread(entries: Seq<Entry>)
    requires
        entries.len() > 64,
    ensures
        sampled(entries).len() == 64,
        spread_places(entries.len() as int),
        (forall|i: int, j: int|
            0 <= i < j < entries.len() ==> (#[trigger] entries[i]).tile_id < (
            #[trigger] entries[j]).tile_id) ==> (forall|i: int, j: int|
            0 <= i < j < 64 ==> #[trigger] sampled(entries)[i] < #[trigger] sampled(entries)[j]),
{
    let n = entries.len() as int;
    lemma_sample_places(n, 0, 63);
    assert forall|i: int, j: int| 0 <= i < j < 64 implies 0 <= #[trigger] sample_place(n, i)
        < #[trigger] sample_place(n, j) < n by {
        lemma_sample_places(n, i, j);
    }
    assert forall|i: int| 0 <= i < 63 implies #[trigger] sample_place(n, i + 1) - sample_place(n, i)
        <= (n + 61) / 63 by {
        lemma_sample_places(n, i, i + 1);
    }
    if forall|i: int, j: int|
        0 <= i < j < entries.len() ==> (#[trigger] entries[i]).tile_id < (
        #[trigger] entries[j]).tile_id {
        assert forall|i: int, j: int| 0 <= i < j < 64 implies #[trigger] sampled(entries)[i]
            < #[trigger] sampled(entries)[j] by {
            assert(sample_place(n, i) < sample_place(n, j));
            assert(entries[sample_place(n, i)].tile_id < entries[sample_place(n, j)].tile_id);
        }
    }
}

/// The places of a sample start at the first entry, ascend, pass the first 64 and
/// stay among the entries, in steps of at most a 63rd of the way, rounded up.
pub open spec fn spread_places(n: int) -> bool {
    &&& sample_place(n, 0) == 0
    &&& 64 <= sample_place(n, 63)
    &&& forall|i: int, j: int|
        0 <= i < j < 64 ==> 0 <= #[trigger] sample_place(n, i) < #[trigger] sample_place(n, j) < n
    &&& forall|i: int|
        0 <= i < 63 ==> #[trigger] sample_place(n, i + 1) - sample_place(n, i) <= (n + 61) / 63
}

/// Compare a sampled tile with the store: a check of the archive's structure
/// cannot catch a tile at the wrong coordinate.
pub fn check_sample(
    z: u8,
    x: u32,
    y: u32,
    expected: Option<Vec<u8>>,
    actual: Option<Vec<u8>>,
) -> (res: Result<(), ExportError>)
    ensures
        match (expected, actual) {
            (None, _) => res == Err::<(), ExportError>(ExportError::Vanished { z, x, y }),
            (Some(source), read) => match stored_tile(source@) {
                None => res == Err::<(), ExportError>(ExportError::Compression),
                Some(blob) => match read {
                    None => res == Err::<(), ExportError>(ExportError::Missing { z, x, y }),
                    Some(tile) => if tile@ == blob {
                        res == Ok::<(), ExportError>(())
                    } else {
                        res == Err::<(), ExportError>(ExportError::Mismatch { z, x, y })
                    },
                },
            },
        },
{
    let source: Vec<u8> = match expected {
        Some(source) => source,
        None => {
            return Err(ExportError::Vanished { z, x, y });
        },
    };
    let blob: Vec<u8> = match store_tile(source) {
        Some(blob) => blob,
        None => {
            return Err(ExportError::Compression);
        },
    };
    match actual {
        None => Err(ExportError::Missing { z, x, y }),
        Some(tile) => if same_bytes(tile.as_slice(), blob.as_slice()) {
            Ok(())
        } else {
            Err(ExportError::Mismatch { z, x, y })
        },
    }
}

/// Whether two byte strings are the same.
pub fn same_bytes(a: &[u8], b: &[u8]) -> (same: bool)
    ensures
        same == (a@ == b@),
{
    if a.len() != b.len() {
        return false;
    }
    for i in 0..a.len()
        invariant
            a@.len() == b@.len(),
            forall|k: int| 0 <= k < i ==> a@[k] == b@[k],
    {
        if a[i] != b[i] {
            return false;
        }
    }
    assert(a@ =~= b@);
    true
}

/// Stored tiles are in order where each has a zoom of at most 30 and lies in the
/// grid of its zoom; else the first that does not is what is wrong.
pub proof fn lemma_first_wrong_tile_is_named(coords: Seq<(u8, u32, u32)>)
    ensures
        match first_row_error(coords) {
            None => forall|i: int|
                0 <= i < coords.len() ==> (#[trigger] coords[i]).0 <= 30 && coords[i].1 < pow2(
                    coords[i].0 as nat,
                ) && coords[i].2 < pow2(coords[i].0 as nat),
            Some(e) => exists|i: int|
                0 <= i < coords.len() && first_row_error(coords.take(i)) is None && (if (
                #[trigger] coords[i]).0 > 30 {
                    e == ExportError::ZoomOutOfRange(coords[i].0)
                } else {
                    e == (ExportError::OutsideGrid {
                        z: coords[i].0,
                        x: coords[i].1,
                        tms_y: coords[i].2,
                    }) && (coords[i].1 >= pow2(coords[i].0 as nat) || coords[i].2 >= pow2(
                        coords[i].0 as nat,
                    ))
                }),
        },
    decreases coords.len(),
{
    if coords.len() > 0 {
        let front = coords.drop_last();
        let n = coords.len() - 1;
        lemma_first_wrong_tile_is_named(front);
        match first_row_error(front) {
            Some(e) => {
                let i = choose|i: int|
                    0 <= i < front.len() && first_row_error(front.take(i)) is None && (if (
                    #[trigger] front[i]).0 > 30 {
                        e == ExportError::ZoomOutOfRange(front[i].0)
                    } else {
                        e == (ExportError::OutsideGrid {
                            z: front[i].0,
                            x: front[i].1,
                            tms_y: front[i].2,
                        }) && (front[i].1 >= pow2(front[i].0 as nat) || front[i].2 >= pow2(
                            front[i].0 as nat,
                        ))
                    });
                assert(coords[i] == front[i]);
                assert(coords.take(i) =~= front.take(i));
            },
            None => {
                assert(coords.take(n) =~= front);
                assert(coords[n] == coords.last());
                assert forall|i: int| 0 <= i < n implies (#[trigger] coords[i]).0 <= 30
                    && coords[i].1 < pow2(coords[i].0 as nat) && coords[i].2 < pow2(
                    coords[i].0 as nat,
                ) by {
                    assert(coords[i] == front[i]);
                }
            },
        }
    }
}

/// The sections of an archive follow each other behind the header without a gap:
/// root, metadata, leaves and data. The header says of the tiles how many there are,
/// how many entries and how many different blobs, and gives the place as it was given.
pub proof fn lemma_sections_follow_each_other(
    root: nat,
    metadata: nat,
    leaves: nat,
    p: Packed,
    addressed: nat,
    place: Placement,
)
    requires
        127 + root + metadata + leaves + p.data_len <= u64::MAX,
        addressed <= u64::MAX,
        p.entries.len() <= u64::MAX,
        p.blobs.len() <= u64::MAX,
    ensures
        ({
            let h = laid_out(root, metadata, leaves, p, addressed, place);
            &&& h.root_offset == 127 && h.root_length == root
            &&& h.metadata_offset == h.root_offset + h.root_length && h.metadata_length == metadata
            &&& h.leaf_offset == h.metadata_offset + h.metadata_length && h.leaf_length == leaves
            &&& h.data_offset == h.leaf_offset + h.leaf_length && h.data_length == p.data_len
            &&& h.addressed_tiles == addressed
            &&& h.tile_entries == p.entries.len()
            &&& h.tile_contents == p.blobs.len()
            &&& h.clustered && h.internal_compression is Gzip && h.tile_compression is Gzip
            &&& h.min_zoom == place.min_zoom && h.max_zoom == place.max_zoom
            &&& h.bounds == place.bounds && h.center == place.center
            &&& h.center_zoom == place.center_zoom
        }),
{
}

/// The bytes of an archive are its header and its sections, in this order and
/// nothing between them.
pub proof fn lemma_archive_is_its_sections(
    h: Header,
    root: Seq<u8>,
    metadata: Seq<u8>,
    leaves: Seq<u8>,
    data: Seq<u8>,
)
    ensures
        ({
            let file = archive_bytes(h, root, metadata, leaves, data);
            let m = (127 + root.len()) as int;
            let l = m + metadata.len();
            let d = l + leaves.len();
            &&& file.len() == d + data.len()
            &&& file.subrange(0, 127) == header_bytes(h)
            &&& file.subrange(127, m) == root
            &&& file.subrange(m, l) == metadata
            &&& file.subrange(l, d) == leaves
            &&& file.skip(d) == data
        }),
{
    let file = archive_bytes(h, root, metadata, leaves, data);
    let m = (127 + root.len()) as int;
    let l = m + metadata.len();
    let d = l + leaves.len();
    assert(header_bytes(h).len() == 127);
    assert(file.subrange(0, 127) =~= header_bytes(h));
    assert(file.subrange(127, m) =~= root);
    assert(file.subrange(m, l) =~= metadata);
    assert(file.subrange(l, d) =~= leaves);
    assert(file.skip(d) =~= data);
}

/// Every tile of a small directory is sampled.
pub proof fn lemma_small_directory_is_sampled_whole(entries: Seq<Entry>)
    requires
        entries.len() <= 64,
    ensures
        sampled(entries).len() == entries.len(),
        forall|i: int| 0 <= i < entries.len() ==> sampled(entries)[i] == (
        #[trigger] entries[i]).tile_id,
{
}

} // verus!
