//! Single-file tile archives, version 3 of the PMTiles layout.
//!
//! An archive is a fixed 127-byte header, a compressed root directory, JSON
//! metadata, optional leaf directories and then the tile data. Directories
//! hold their fields column by column as variable-length integers. Tiles are
//! addressed by one number taken from a Hilbert curve over each zoom level,
//! which keeps tiles that are near each other on the map near each other in
//! the file.
pub mod archive;
pub mod directory;
pub mod export;
pub mod gzip;
pub mod header;
pub mod leaves;
pub mod metadata;
pub mod pack;
pub mod report;
pub mod tile_id;
pub mod varint;

pub use self::leaves::{build_directories, BuildError};
pub use self::archive::{
    read_directory, ArchiveCheck, ArchiveError, ArchiveReader, ByteRange, TileLookup,
};
pub use self::directory::{deserialize_directory, serialize_directory, DirectoryError, Entry};
pub use self::export::{
    check_sample, flip_y, plan_export, sample_tile_ids, ArchiveHead, ExportError, ExportPlan,
    ExportStats, Placement, PlannedTile,
};
pub use self::gzip::{is_gzipped, store_tile};
pub use self::header::{
    Compressed, Header, HeaderError, TileType, HEADER_LEN, MAX_ROOT_DIR_LEN, VERSION,
};
pub use self::metadata::build_metadata;
pub use self::pack::ArchiveBuilder;
pub use self::report::{
    check_paths, export_report, parse_bounds, parse_center, path_clash, split_commas, staging_path,
    PathClash,
};
pub use self::tile_id::{hilbert_to_xy, tile_id, tile_id_to_zxy, TileIdError};
pub use self::varint::{read_varint, write_varint, VarintError};
