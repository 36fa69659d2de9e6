//! Reading an archive: finding one tile, and checking the whole.
//!
//! Nothing here touches a file. A lookup or a check asks for a range of bytes,
//! is handed those bytes, and goes on from there, so that the same decisions
//! serve a file, a range request or bytes in memory.
use crate::pmtiles::directory::{deserialize_directory, parse_directory, DirectoryError, Entry, MAX_ENTRIES};
use crate::pmtiles::gzip::{gunzip_of, ungzip};
use crate::pmtiles::header::{parse_header, Header, HeaderError, HEADER_LEN};
use crate::pmtiles::tile_id::{tile_id, tile_number, MAX_TILE_ZOOM};
use vstd::prelude::*;
use vstd::slice::slice_subrange;

verus! {

/// Why an archive could not be read, or does not describe itself consistently.
#[derive(Debug, Clone, Copy, PartialEq, Eq, Structural)]
pub enum ArchiveError {
    /// There are fewer bytes than a header has.
    ShorterThanHeader,
    Header(HeaderError),
    /// A section would end past what 64 bits can say.
    SectionOverflow,
    /// A section would end past the archive.
    SectionOutside { len: u64, offset: u64, length: u64 },
    /// A directory is not valid gzip.
    Decompression,
    Directory(DirectoryError),
    LeafOffsetOverflow,
    TileOffsetOverflow,
    /// The header's tile data section would end past what 64 bits can say.
    DataOverflow,
    /// The header's tile data section ends past the archive.
    DataOutside { len: u64, declared_end: u64 },
    EntryOverflow,
    /// A tile points outside the tile data section.
    EntryOutside(u64),
    /// The directories hold another number of entries than the header says.
    EntryCount { declared: u64, found: u64 },
}

/// A section of an archive's bytes.
pub open spec fn section(file: Seq<u8>, offset: u64, length: u64) -> Result<
    Seq<u8>,
    ArchiveError,
> {
    match section_error(file.len() as u64, offset, length) {
        Some(e) => Err(e),
        None => Ok(file.subrange(offset as int, offset + length)),
    }
}

/// What is wrong with a section of an archive of `len` bytes.
pub open spec fn section_error(len: u64, offset: u64, length: u64) -> Option<ArchiveError> {
    if offset + length > u64::MAX {
        Some(ArchiveError::SectionOverflow)
    } else if offset + length > len {
        Some(ArchiveError::SectionOutside { len, offset, length })
    } else {
        None
    }
}

/// What a stored directory says.
#[verifier::opaque]
pub open spec fn parse_stored(raw: Seq<u8>) -> Result<Seq<Entry>, ArchiveError> {
    match gunzip_of(raw) {
        None => Err(ArchiveError::Decompression),
        Some(bytes) => match parse_directory(bytes) {
            Err(e) => Err(ArchiveError::Directory(e)),
            Ok(entries) => Ok(entries),
        },
    }
}

/// The directory in a section of an archive.
pub open spec fn directory_at(file: Seq<u8>, offset: u64, length: u64) -> Result<
    Seq<Entry>,
    ArchiveError,
> {
    match section(file, offset, length) {
        Err(e) => Err(e),
        Ok(raw) => parse_stored(raw),
    }
}

/// The last entry that starts at or before a tile number.
pub open spec fn last_at_most(entries: Seq<Entry>, wanted: u64) -> Option<Entry>
    decreases entries.len(),
{
    if entries.len() == 0 {
        None
    } else if entries.last().tile_id <= wanted {
        Some(entries.last())
    } else {
        last_at_most(entries.drop_last(), wanted)
    }
}

/// The run of an entry ends before a tile number. A run that would end past
/// what 64 bits can say ends at the largest number.
pub open spec fn run_ends_before(entry: Entry, wanted: u64) -> bool {
    if entry.tile_id + entry.run_length > u64::MAX {
        wanted >= u64::MAX
    } else {
        wanted >= entry.tile_id + entry.run_length
    }
}

/// The tile that a directory leads to, through at most `hops` directories
/// counting this one.
pub open spec fn lookup_in(
    file: Seq<u8>,
    h: Header,
    entries: Seq<Entry>,
    wanted: u64,
    hops: nat,
) -> Result<Option<Seq<u8>>, ArchiveError>
    decreases hops,
{
    if hops == 0 {
        Ok(None)
    } else {
        match last_at_most(entries, wanted) {
            None => Ok(None),
            Some(entry) => if entry.run_length == 0 {
                if h.leaf_offset + entry.offset > u64::MAX {
                    Err(ArchiveError::LeafOffsetOverflow)
                } else {
                    match directory_at(
                        file,
                        (h.leaf_offset + entry.offset) as u64,
                        entry.length as u64,
                    ) {
                        Err(e) => Err(e),
                        Ok(leaf) => lookup_in(file, h, leaf, wanted, (hops - 1) as nat),
                    }
                }
            } else if run_ends_before(entry, wanted) {
                Ok(None)
            } else if h.data_offset + entry.offset > u64::MAX {
                Err(ArchiveError::TileOffsetOverflow)
            } else {
                match section(file, (h.data_offset + entry.offset) as u64, entry.length as u64) {
                    Err(e) => Err(e),
                    Ok(tile) => Ok(Some(tile)),
                }
            },
        }
    }
}

/// The tile that an archive holds under a number: the root directory leads to
/// it, or to one leaf that does.
pub open spec fn archive_tile(file: Seq<u8>, h: Header, wanted: u64) -> Result<
    Option<Seq<u8>>,
    ArchiveError,
> {
    match directory_at(file, h.root_offset, h.root_length) {
        Err(e) => Err(e),
        Ok(root) => lookup_in(file, h, root, wanted, 2),
    }
}

/// What is wrong with a tile entry.
pub open spec fn entry_error(entry: Entry, data_length: u64) -> Option<ArchiveError> {
    if entry.offset + entry.length > u64::MAX {
        Some(ArchiveError::EntryOverflow)
    } else if entry.offset + entry.length > data_length {
        Some(ArchiveError::EntryOutside(entry.tile_id))
    } else {
        None
    }
}

/// What is wrong with the first wrong entry.
pub open spec fn first_error(entries: Seq<Entry>, data_length: u64) -> Option<ArchiveError>
    decreases entries.len(),
{
    if entries.len() == 0 {
        None
    } else if first_error(entries.drop_last(), data_length) is Some {
        first_error(entries.drop_last(), data_length)
    } else {
        entry_error(entries.last(), data_length)
    }
}

/// The rest of a check, from root entry `i` on with `found` tile entries seen.
pub open spec fn check_from(
    file: Seq<u8>,
    h: Header,
    root: Seq<Entry>,
    i: nat,
    found: nat,
) -> Result<(), ArchiveError>
    decreases root.len() - i,
{
    if i >= root.len() {
        if found != h.tile_entries {
            Err(ArchiveError::EntryCount { declared: h.tile_entries, found: found as u64 })
        } else {
            Ok(())
        }
    } else {
        let entry = root[i as int];
        if entry.run_length == 0 {
            if h.leaf_offset + entry.offset > u64::MAX {
                Err(ArchiveError::LeafOffsetOverflow)
            } else {
                match directory_at(
                    file,
                    (h.leaf_offset + entry.offset) as u64,
                    entry.length as u64,
                ) {
                    Err(e) => Err(e),
                    Ok(leaf) => check_after_leaf(file, h, root, i, found, leaf),
                }
            }
        } else {
            match entry_error(entry, h.data_length) {
                Some(e) => Err(e),
                None => check_from(file, h, root, i + 1, found + 1),
            }
        }
    }
}

/// The rest of a check once the leaf of root entry `i` has been read.
pub open spec fn check_after_leaf(
    file: Seq<u8>,
    h: Header,
    root: Seq<Entry>,
    i: nat,
    found: nat,
    leaf: Seq<Entry>,
) -> Result<(), ArchiveError>
    decreases root.len() - i, 0nat,
    when i < root.len()
{
    match first_error(leaf, h.data_length) {
        Some(e) => Err(e),
        None => check_from(file, h, root, i + 1, found + leaf.len()),
    }
}

/// The archive describes itself consistently: sections are inside the file,
/// directories parse, and every entry points inside the tile data.
pub open spec fn check_archive(file: Seq<u8>, h: Header) -> Result<(), ArchiveError> {
    if h.data_offset + h.data_length > u64::MAX {
        Err(ArchiveError::DataOverflow)
    } else if h.data_offset + h.data_length > file.len() {
        Err(
            ArchiveError::DataOutside {
                len: file.len() as u64,
                declared_end: (h.data_offset + h.data_length) as u64,
            },
        )
    } else {
        match directory_at(file, h.root_offset, h.root_length) {
            Err(e) => Err(e),
            Ok(root) => check_from(file, h, root, 0, 0),
        }
    }
}

/// A range of the archive's bytes.
#[derive(Debug, Clone, Copy, PartialEq, Eq, Structural)]
pub struct ByteRange {
    pub offset: u64,
    pub length: u64,
}

impl ByteRange {
    /// The range lies within an archive of `len` bytes.
    pub open spec fn within(self, len: int) -> bool {
        self.offset + self.length <= len
    }

    /// The bytes of the range.
    pub open spec fn of(self, file: Seq<u8>) -> Seq<u8> {
        file.subrange(self.offset as int, self.offset + self.length)
    }
}

/// Where a tile lookup stands: the bytes it waits for are a directory, with a
/// number of directories left to read, or the tile itself.
#[derive(Debug, Clone, Copy, PartialEq, Eq, Structural)]
pub enum TileLookup {
    Directory { wanted: u64, hops: u8, range: ByteRange },
    Tile { range: ByteRange },
    Missing,
}

impl TileLookup {
    /// The range that the lookup waits for.
    pub open spec fn waits_for(self) -> Option<ByteRange> {
        match self {
            TileLookup::Directory { wanted: _, hops: _, range } => Some(range),
            TileLookup::Tile { range } => Some(range),
            TileLookup::Missing => None,
        }
    }

    /// How the lookup ends when its reads are answered from `file`.
    pub open spec fn outcome(self, file: Seq<u8>, h: Header) -> Result<
        Option<Seq<u8>>,
        ArchiveError,
    > {
        match self {
            TileLookup::Missing => Ok(None),
            TileLookup::Tile { range } => Ok(Some(range.of(file))),
            TileLookup::Directory { wanted, hops, range } => match parse_stored(range.of(file)) {
                Err(e) => Err(e),
                Ok(entries) => lookup_in(file, h, entries, wanted, hops as nat),
            },
        }
    }

    /// Reads that are still to come.
    pub open spec fn reads_left(self) -> nat {
        match self {
            TileLookup::Missing => 0,
            TileLookup::Tile { range: _ } => 1,
            TileLookup::Directory { wanted: _, hops, range: _ } => hops as nat + 2,
        }
    }

    /// The range to read next, if any.
    pub fn next_read(&self) -> (range: Option<ByteRange>)
        ensures
            range == self.waits_for(),
    {
        match self {
            TileLookup::Directory { wanted: _, hops: _, range } => Some(*range),
            TileLookup::Tile { range } => Some(*range),
            TileLookup::Missing => None,
        }
    }
}

/// Where a check of a whole archive stands.
#[derive(Debug, PartialEq, Eq)]
pub enum ArchiveCheck {
    /// Waiting for the root directory.
    Root { range: ByteRange },
    /// Waiting for the leaf of root entry `next`.
    Leaf { root: Vec<Entry>, next: usize, found: u64, range: ByteRange },
    Done,
}

impl ArchiveCheck {
    /// The range that the check waits for.
    pub open spec fn waits_for(self) -> Option<ByteRange> {
        match self {
            ArchiveCheck::Root { range } => Some(range),
            ArchiveCheck::Leaf { root: _, next: _, found: _, range } => Some(range),
            ArchiveCheck::Done => None,
        }
    }

    /// The counters stay within what directories can hold.
    pub open spec fn valid(self) -> bool {
        match self {
            ArchiveCheck::Leaf { root, next, found, range: _ } => next < root@.len()
                && root@.len() <= MAX_ENTRIES && found <= next * MAX_ENTRIES,
            _ => true,
        }
    }

    /// How the check ends when its reads are answered from `file`.
    pub open spec fn outcome(self, file: Seq<u8>, h: Header) -> Result<(), ArchiveError> {
        match self {
            ArchiveCheck::Done => Ok(()),
            ArchiveCheck::Root { range } => match parse_stored(range.of(file)) {
                Err(e) => Err(e),
                Ok(root) => check_from(file, h, root, 0, 0),
            },
            ArchiveCheck::Leaf { root, next, found, range } => match parse_stored(range.of(file)) {
                Err(e) => Err(e),
                Ok(leaf) => check_after_leaf(file, h, root@, next as nat, found as nat, leaf),
            },
        }
    }

    /// Reads that are still to come, at most.
    pub open spec fn reads_left(self) -> nat {
        match self {
            ArchiveCheck::Done => 0,
            ArchiveCheck::Root { range: _ } => MAX_ENTRIES as nat + 1,
            ArchiveCheck::Leaf { root, next, found: _, range: _ } => (root@.len() - next) as nat,
        }
    }

    /// The range to read next, if any.
    pub fn next_read(&self) -> (range: Option<ByteRange>)
        ensures
            range == self.waits_for(),
    {
        match self {
            ArchiveCheck::Root { range } => Some(*range),
            ArchiveCheck::Leaf { root: _, next: _, found: _, range } => Some(*range),
            ArchiveCheck::Done => None,
        }
    }
}

/// Parse a stored directory.
pub fn read_directory(raw: &[u8]) -> (res: Result<Vec<Entry>, ArchiveError>)
    ensures
        match parse_stored(raw@) {
            Ok(entries) => res is Ok && res->Ok_0@ == entries && entries.len() <= MAX_ENTRIES,
            Err(e) => res == Err::<Vec<Entry>, ArchiveError>(e),
        },
{
    proof {
        reveal(parse_stored);
    }
    match ungzip(raw) {
        Err(_) => Err(ArchiveError::Decompression),
        Ok(bytes) => match deserialize_directory(bytes.as_slice()) {
            Err(e) => Err(ArchiveError::Directory(e)),
            Ok(entries) => Ok(entries),
        },
    }
}

fn find_last_at_most(entries: &[Entry], wanted: u64) -> (found: Option<Entry>)
    ensures
        found == last_at_most(entries@, wanted),
{
    let mut i: usize = entries.len();
    proof {
        assert(entries@.take(i as int) =~= entries@);
    }
    while i > 0
        invariant
            i <= entries@.len(),
            last_at_most(entries@, wanted) == last_at_most(entries@.take(i as int), wanted),
        decreases i,
    {
        proof {
            assert(entries@.take(i as int).last() == entries@[i - 1]);
            assert(entries@.take(i as int).drop_last() =~= entries@.take(i - 1));
        }
        if entries[i - 1].tile_id <= wanted {
            return Some(entries[i - 1]);
        }
        i = i - 1;
    }
    None
}

fn check_entry(entry: &Entry, data_length: u64) -> (problem: Option<ArchiveError>)
    ensures
        problem == entry_error(*entry, data_length),
{
    if entry.offset > u64::MAX - entry.length as u64 {
        Some(ArchiveError::EntryOverflow)
    } else if entry.offset + entry.length as u64 > data_length {
        Some(ArchiveError::EntryOutside(entry.tile_id))
    } else {
        None
    }
}

fn check_entries(entries: &[Entry], data_length: u64) -> (problem: Option<ArchiveError>)
    ensures
        problem == first_error(entries@, data_length),
{
    proof {
        assert(entries@.take(0) =~= Seq::<Entry>::empty());
    }
    for i in 0..entries.len()
        invariant
            first_error(entries@.take(i as int), data_length) is None,
    {
        proof {
            assert(entries@.take(i + 1).last() == entries@[i as int]);
            assert(entries@.take(i + 1).drop_last() =~= entries@.take(i as int));
        }
        match check_entry(&entries[i], data_length) {
            Some(e) => {
                proof {
                    lemma_first_error_stays(entries@, data_length, i as int + 1);
                }
                return Some(e);
            },
            None => {},
        }
    }
    proof {
        assert(entries@.take(entries@.len() as int) =~= entries@);
    }
    None
}

proof fn lemma_first_error_stays(entries: Seq<Entry>, data_length: u64, i: int)
    requires
        0 <= i <= entries.len(),
        first_error(entries.take(i), data_length) is Some,
    ensures
        first_error(entries, data_length) == first_error(entries.take(i), data_length),
    decreases entries.len() - i,
{
    if i < entries.len() {
        assert(entries.take(i + 1).drop_last() =~= entries.take(i));
        lemma_first_error_stays(entries, data_length, i + 1);
    } else {
        assert(entries.take(i) =~= entries);
    }
}

/// An opened archive: its header, and how many bytes it has.
///
/// Every range is checked before it is asked for, so a truncated or malformed
/// archive leads to an error, and nothing loads the whole archive into memory.
#[derive(Debug, Clone, Copy)]
pub struct ArchiveReader {
    header: Header,
    len: u64,
}

impl ArchiveReader {
    /// The archive's header.
    pub closed spec fn spec_header(&self) -> Header {
        self.header
    }

    /// The archive's size in bytes.
    pub closed spec fn spec_len(&self) -> u64 {
        self.len
    }

    /// Open an archive of `len` bytes by its first bytes: the first 127, or all
    /// of them where there are fewer.
    pub fn open(start: &[u8], len: u64) -> (res: Result<ArchiveReader, ArchiveError>)
        ensures
            match res {
                Ok(reader) => parse_header(start@) == Ok::<Header, HeaderError>(
                    reader.spec_header(),
                ) && reader.spec_len() == len,
                Err(ArchiveError::ShorterThanHeader) => start@.len() < 127,
                Err(ArchiveError::Header(e)) => start@.len() >= 127 && parse_header(start@) == Err::<
                    Header,
                    HeaderError,
                >(e),
                Err(_) => false,
            },
    {
        if start.len() < HEADER_LEN {
            return Err(ArchiveError::ShorterThanHeader);
        }
        match Header::from_bytes(start) {
            Ok(header) => Ok(ArchiveReader { header, len }),
            Err(e) => Err(ArchiveError::Header(e)),
        }
    }

    /// The archive's header.
    pub fn header(&self) -> (h: &Header)
        ensures
            *h == self.spec_header(),
    {
        &self.header
    }

    /// Check a range against the archive's size. Offsets come from the file
    /// being read, so they can be anything at all.
    fn range(&self, offset: u64, length: u64) -> (res: Result<ByteRange, ArchiveError>)
        ensures
            match section_error(self.spec_len(), offset, length) {
                Some(e) => res == Err::<ByteRange, ArchiveError>(e),
                None => res == Ok::<ByteRange, ArchiveError>(ByteRange { offset, length }) && (
                ByteRange { offset, length }).within(self.spec_len() as int),
            },
    {
        if offset > u64::MAX - length {
            return Err(ArchiveError::SectionOverflow);
        }
        if offset + length > self.len {
            return Err(ArchiveError::SectionOutside { len: self.len, offset, length });
        }
        Ok(ByteRange { offset, length })
    }

    /// Begin the lookup of a tile.
    pub fn begin_lookup(&self, z: u8, x: u32, y: u32) -> (res: Result<TileLookup, ArchiveError>)
        requires
            z <= MAX_TILE_ZOOM,
        ensures
            res is Ok && res->Ok_0.waits_for() is Some ==> res->Ok_0.waits_for()->0.within(
                self.spec_len() as int,
            ),
            forall|file: Seq<u8>|
                file.len() == self.spec_len() ==> #[trigger] archive_tile(
                    file,
                    self.spec_header(),
                    tile_number(z as nat, x as int, y as int) as u64,
                ) == (match res {
                    Ok(lookup) => lookup.outcome(file, self.spec_header()),
                    Err(e) => Err(e),
                }),
    {
        let wanted: u64 = tile_id(z, x, y);
        match self.range(self.header.root_offset, self.header.root_length) {
            Err(e) => Err(e),
            Ok(range) => Ok(TileLookup::Directory { wanted, hops: 2, range }),
        }
    }

    /// Go on with the bytes of a directory that a lookup has waited for.
    pub fn resume_lookup(&self, lookup: TileLookup, bytes: &[u8]) -> (res: Result<
        TileLookup,
        ArchiveError,
    >)
        requires
            lookup is Directory,
        ensures
            res is Ok && res->Ok_0.waits_for() is Some ==> res->Ok_0.waits_for()->0.within(
                self.spec_len() as int,
            ),
            res is Ok ==> res->Ok_0.reads_left() < lookup.reads_left(),
            forall|file: Seq<u8>|
                file.len() == self.spec_len() && lookup->Directory_range.of(file) == bytes@
                    ==> #[trigger] lookup.outcome(file, self.spec_header()) == (match res {
                    Ok(next) => next.outcome(file, self.spec_header()),
                    Err(e) => Err(e),
                }),
    {
        let ghost h = self.spec_header();
        match lookup {
            TileLookup::Directory { wanted, hops, range: _ } => {
                let entries: Vec<Entry> = match read_directory(bytes) {
                    Ok(entries) => entries,
                    Err(e) => {
                        return Err(e);
                    },
                };
                if hops == 0 {
                    return Ok(TileLookup::Missing);
                }
                let entry: Entry = match find_last_at_most(entries.as_slice(), wanted) {
                    Some(entry) => entry,
                    None => {
                        return Ok(TileLookup::Missing);
                    },
                };
                if entry.run_length == 0 {
                    if self.header.leaf_offset > u64::MAX - entry.offset {
                        return Err(ArchiveError::LeafOffsetOverflow);
                    }
                    let offset: u64 = self.header.leaf_offset + entry.offset;
                    match self.range(offset, entry.length as u64) {
                        Err(e) => Err(e),
                        Ok(range) => Ok(TileLookup::Directory { wanted, hops: hops - 1, range }),
                    }
                } else {
                    let missing: bool = if entry.tile_id > u64::MAX - entry.run_length as u64 {
                        wanted == u64::MAX
                    } else {
                        wanted >= entry.tile_id + entry.run_length as u64
                    };
                    if missing {
                        return Ok(TileLookup::Missing);
                    }
                    if self.header.data_offset > u64::MAX - entry.offset {
                        return Err(ArchiveError::TileOffsetOverflow);
                    }
                    let offset: u64 = self.header.data_offset + entry.offset;
                    match self.range(offset, entry.length as u64) {
                        Err(e) => Err(e),
                        Ok(range) => Ok(TileLookup::Tile { range }),
                    }
                }
            },
            other => Ok(other),
        }
    }

    /// Read one tile of an archive held in memory, following a leaf directory
    /// when the root points at one.
    pub fn get_tile(&self, archive: &[u8], z: u8, x: u32, y: u32) -> (res: Result<
        Option<Vec<u8>>,
        ArchiveError,
    >)
        requires
            z <= MAX_TILE_ZOOM,
            archive.len() == self.spec_len(),
        ensures
            match archive_tile(
                archive@,
                self.spec_header(),
                tile_number(z as nat, x as int, y as int) as u64,
            ) {
                Ok(Some(tile)) => res is Ok && res->Ok_0 is Some && res->Ok_0->0@ == tile,
                Ok(None) => res is Ok && res->Ok_0 is None,
                Err(e) => res == Err::<Option<Vec<u8>>, ArchiveError>(e),
            },
    {
        let ghost h = self.spec_header();
        let ghost expected = archive_tile(
            archive@,
            h,
            tile_number(z as nat, x as int, y as int) as u64,
        );
        let mut lookup: TileLookup = match self.begin_lookup(z, x, y) {
            Ok(lookup) => lookup,
            Err(e) => {
                return Err(e);
            },
        };
        loop
            invariant
                h == self.spec_header(),
                archive.len() == self.spec_len(),
                lookup.waits_for() is Some ==> lookup.waits_for()->0.within(
                    self.spec_len() as int,
                ),
                lookup.outcome(archive@, h) == expected,
                expected == archive_tile(
                    archive@,
                    h,
                    tile_number(z as nat, x as int, y as int) as u64,
                ),
            decreases lookup.reads_left(),
        {
            let range: ByteRange = match lookup.next_read() {
                Some(range) => range,
                None => {
                    return Ok(None);
                },
            };
            let bytes: &[u8] = slice_subrange(
                archive,
                range.offset as usize,
                (range.offset + range.length) as usize,
            );
            match lookup {
                TileLookup::Directory { wanted: _, hops: _, range: _ } => {
                    match self.resume_lookup(lookup, bytes) {
                        Ok(next) => {
                            lookup = next;
                        },
                        Err(e) => {
                            return Err(e);
                        },
                    }
                },
                _ => {
                    return Ok(Some(vstd::slice::slice_to_vec(bytes)));
                },
            }
        }
    }

    /// Begin a check of the whole archive.
    pub fn begin_check(&self) -> (res: Result<ArchiveCheck, ArchiveError>)
        ensures
            res is Ok ==> res->Ok_0.valid() && res->Ok_0.waits_for() is Some
                && res->Ok_0.waits_for()->0.within(self.spec_len() as int),
            forall|file: Seq<u8>|
                file.len() == self.spec_len() ==> #[trigger] check_archive(
                    file,
                    self.spec_header(),
                ) == (match res {
                    Ok(check) => check.outcome(file, self.spec_header()),
                    Err(e) => Err(e),
                }),
    {
        if self.header.data_offset > u64::MAX - self.header.data_length {
            return Err(ArchiveError::DataOverflow);
        }
        let declared_end: u64 = self.header.data_offset + self.header.data_length;
        if declared_end > self.len {
            return Err(ArchiveError::DataOutside { len: self.len, declared_end });
        }
        match self.range(self.header.root_offset, self.header.root_length) {
            Err(e) => Err(e),
            Ok(range) => Ok(ArchiveCheck::Root { range }),
        }
    }

    /// Go through the root entries from `next` on, up to the next leaf.
    fn scan(&self, root: Vec<Entry>, next: usize, found: u64) -> (res: Result<
        ArchiveCheck,
        ArchiveError,
    >)
        requires
            next <= root@.len() <= MAX_ENTRIES,
            found <= next * MAX_ENTRIES,
        ensures
            res is Ok ==> res->Ok_0.valid() && res->Ok_0.reads_left() <= root@.len() - next,
            res is Ok && res->Ok_0.waits_for() is Some ==> res->Ok_0.waits_for()->0.within(
                self.spec_len() as int,
            ),
            forall|file: Seq<u8>|
                file.len() == self.spec_len() ==> #[trigger] check_from(
                    file,
                    self.spec_header(),
                    root@,
                    next as nat,
                    found as nat,
                ) == (match res {
                    Ok(check) => check.outcome(file, self.spec_header()),
                    Err(e) => Err(e),
                }),
    {
        let ghost h = self.spec_header();
        let mut i: usize = next;
        let mut count: u64 = found;
        while i < root.len()
            invariant
                h == self.spec_header(),
                next <= i <= root@.len() <= MAX_ENTRIES,
                count <= i * MAX_ENTRIES,
                forall|file: Seq<u8>|
                    file.len() == self.spec_len() ==> #[trigger] check_from(
                        file,
                        h,
                        root@,
                        next as nat,
                        found as nat,
                    ) == check_from(file, h, root@, i as nat, count as nat),
            decreases root@.len() - i,
        {
            let entry: Entry = root[i];
            if entry.run_length == 0 {
                if self.header.leaf_offset > u64::MAX - entry.offset {
                    return Err(ArchiveError::LeafOffsetOverflow);
                }
                let offset: u64 = self.header.leaf_offset + entry.offset;
                return match self.range(offset, entry.length as u64) {
                    Err(e) => Err(e),
                    Ok(range) => Ok(ArchiveCheck::Leaf { root, next: i, found: count, range }),
                };
            }
            match check_entry(&entry, self.header.data_length) {
                Some(e) => {
                    return Err(e);
                },
                None => {},
            }
            i = i + 1;
            count = count + 1;
        }
        if count != self.header.tile_entries {
            return Err(
                ArchiveError::EntryCount { declared: self.header.tile_entries, found: count },
            );
        }
        Ok(ArchiveCheck::Done)
    }

    /// Go on with the bytes that a check has waited for.
    pub fn resume_check(&self, check: ArchiveCheck, bytes: &[u8]) -> (res: Result<
        ArchiveCheck,
        ArchiveError,
    >)
        requires
            check.valid(),
            check.waits_for() is Some,
        ensures
            res is Ok ==> res->Ok_0.valid() && res->Ok_0.reads_left() < check.reads_left(),
            res is Ok && res->Ok_0.waits_for() is Some ==> res->Ok_0.waits_for()->0.within(
                self.spec_len() as int,
            ),
            forall|file: Seq<u8>|
                file.len() == self.spec_len() && check.waits_for()->0.of(file) == bytes@
                    ==> #[trigger] check.outcome(file, self.spec_header()) == (match res {
                    Ok(next) => next.outcome(file, self.spec_header()),
                    Err(e) => Err(e),
                }),
    {
        let entries: Vec<Entry> = match read_directory(bytes) {
            Ok(entries) => entries,
            Err(e) => {
                return Err(e);
            },
        };
        let ghost h = self.spec_header();
        let ghost waiting = check;
        match check {
            ArchiveCheck::Root { range: _ } => self.scan(entries, 0, 0),
            ArchiveCheck::Leaf { root, next, found, range: _ } => {
                match check_entries(entries.as_slice(), self.header.data_length) {
                    Some(e) => {
                        return Err(e);
                    },
                    None => {},
                }
                let ghost pointers = root@;
                let total: u64 = found + entries.len() as u64;
                let res = self.scan(root, next + 1, total);
                proof {
                    assert forall|file: Seq<u8>|
                        file.len() == self.spec_len() && waiting.waits_for()->0.of(file)
                            == bytes@ implies #[trigger] waiting.outcome(file, h) == (match res {
                        Ok(check) => check.outcome(file, h),
                        Err(e) => Err(e),
                    }) by {
                        assert(parse_stored(bytes@) == Ok::<Seq<Entry>, ArchiveError>(entries@));
                        assert(waiting.outcome(file, h) == check_after_leaf(
                            file,
                            h,
                            pointers,
                            next as nat,
                            found as nat,
                            entries@,
                        ));
                        assert(waiting.outcome(file, h) == check_from(
                            file,
                            h,
                            pointers,
                            (next + 1) as nat,
                            total as nat,
                        ));
                    }
                }
                res
            },
            ArchiveCheck::Done => Ok(ArchiveCheck::Done),
        }
    }

    /// Check that an archive held in memory describes itself consistently:
    /// sections are inside the file, directories parse, and every entry points
    /// inside the tile data. It cannot tell whether tiles ended up at the right
    /// coordinates.
    pub fn verify(&self, archive: &[u8]) -> (res: Result<(), ArchiveError>)
        requires
            archive.len() == self.spec_len(),
        ensures
            res == check_archive(archive@, self.spec_header()),
    {
        let ghost h = self.spec_header();
        let mut check: ArchiveCheck = match self.begin_check() {
            Ok(check) => check,
            Err(e) => {
                return Err(e);
            },
        };
        loop
            invariant
                h == self.spec_header(),
                archive.len() == self.spec_len(),
                check.valid(),
                check.waits_for() is Some ==> check.waits_for()->0.within(
                    self.spec_len() as int,
                ),
                check.outcome(archive@, h) == check_archive(archive@, h),
            decreases check.reads_left(),
        {
            let range: ByteRange = match check.next_read() {
                Some(range) => range,
                None => {
                    return Ok(());
                },
            };
            let bytes: &[u8] = slice_subrange(
                archive,
                range.offset as usize,
                (range.offset + range.length) as usize,
            );
            match self.resume_check(check, bytes) {
                Ok(next) => {
                    check = next;
                },
                Err(e) => {
                    return Err(e);
                },
            }
        }
    }
}

/// A section can be read exactly where it ends within the file, and is then the
/// bytes from its start to its end.
pub proof fn lemma_sections_lie_inside(file: Seq<u8>, offset: u64, length: u64)
    requires
        file.len() <= u64::MAX,
    ensures
        section(file, offset, length) is Ok <==> offset + length <= file.len(),
        match section(file, offset, length) {
            Ok(bytes) => bytes.len() == length && forall|i: int|
                0 <= i < length ==> #[trigger] bytes[i] == file[offset + i],
            Err(ArchiveError::SectionOverflow) => offset + length > u64::MAX,
            Err(ArchiveError::SectionOutside { len, offset: at, length: asked }) => len
                == file.len() && at == offset && asked == length,
            Err(_) => false,
        },
{
}

/// Entries are in order where the data of each end within the data section; else
/// the first that does not is what is wrong.
pub proof fn lemma_first_wrong_entry_is_named(entries: Seq<Entry>, data_length: u64)
    ensures
        match first_error(entries, data_length) {
            None => forall|i: int|
                0 <= i < entries.len() ==> (#[trigger] entries[i]).offset + entries[i].length
                    <= data_length,
            Some(e) => exists|i: int|
                0 <= i < entries.len() && (#[trigger] entries[i]).offset + entries[i].length
                    > data_length && (forall|k: int|
                    0 <= k < i ==> (#[trigger] entries[k]).offset + entries[k].length
                        <= data_length) && e == (if entries[i].offset + entries[i].length
                    > u64::MAX {
                    ArchiveError::EntryOverflow
                } else {
                    ArchiveError::EntryOutside(entries[i].tile_id)
                }),
        },
    decreases entries.len(),
{
    if entries.len() > 0 {
        let front = entries.drop_last();
        let n = entries.len() - 1;
        lemma_first_wrong_entry_is_named(front, data_length);
        match first_error(front, data_length) {
            Some(e) => {
                let i = choose|i: int|
                    0 <= i < front.len() && (#[trigger] front[i]).offset + front[i].length
                        > data_length && (forall|k: int|
                        0 <= k < i ==> (#[trigger] front[k]).offset + front[k].length
                            <= data_length) && e == (if front[i].offset + front[i].length
                        > u64::MAX {
                        ArchiveError::EntryOverflow
                    } else {
                        ArchiveError::EntryOutside(front[i].tile_id)
                    });
                assert(entries[i] == front[i]);
                assert forall|k: int| 0 <= k < i implies (#[trigger] entries[k]).offset
                    + entries[k].length <= data_length by {
                    assert(entries[k] == front[k]);
                }
            },
            None => {
                assert forall|k: int| 0 <= k < n implies (#[trigger] entries[k]).offset
                    + entries[k].length <= data_length by {
                    assert(entries[k] == front[k]);
                }
                assert(entries[n] == entries.last());
            },
        }
    }
}

/// The tile entries that a root holds from place `i` on, those of its leaves counted.
pub open spec fn entries_behind(file: Seq<u8>, h: Header, root: Seq<Entry>, i: nat) -> nat
    decreases root.len() - i,
{
    if i >= root.len() {
        0
    } else {
        (if root[i as int].run_length == 0 {
            directory_at(
                file,
                (h.leaf_offset + root[i as int].offset) as u64,
                root[i as int].length as u64,
            )->Ok_0.len()
        } else {
            1
        }) + entries_behind(file, h, root, i + 1)
    }
}

/// Root entry `j` stands: a tile's data end within the data section, and a leaf can
/// be read and the data of all its entries end there too.
pub open spec fn stands(file: Seq<u8>, h: Header, root: Seq<Entry>, j: int) -> bool {
    if root[j].run_length > 0 {
        root[j].offset + root[j].length <= h.data_length
    } else {
        &&& h.leaf_offset + root[j].offset <= u64::MAX
        &&& directory_at(
            file,
            (h.leaf_offset + root[j].offset) as u64,
            root[j].length as u64,
        ) is Ok
        &&& forall|k: int|
            #![trigger directory_at(
                file,
                (h.leaf_offset + root[j].offset) as u64,
                root[j].length as u64,
            )->Ok_0[k]]
            0 <= k < directory_at(
                file,
                (h.leaf_offset + root[j].offset) as u64,
                root[j].length as u64,
            )->Ok_0.len() ==> directory_at(
                file,
                (h.leaf_offset + root[j].offset) as u64,
                root[j].length as u64,
            )->Ok_0[k].offset + directory_at(
                file,
                (h.leaf_offset + root[j].offset) as u64,
                root[j].length as u64,
            )->Ok_0[k].length <= h.data_length
    }
}

proof fn lemma_check_goes_on(file: Seq<u8>, h: Header, root: Seq<Entry>, i: nat, found: nat)
    requires
        check_from(file, h, root, i, found) is Ok,
    ensures
        forall|j: int| i <= j < root.len() ==> #[trigger] stands(file, h, root, j),
        found + entries_behind(file, h, root, i) == h.tile_entries,
    decreases root.len() - i,
{
    if i < root.len() {
        let entry = root[i as int];
        if entry.run_length == 0 {
            let leaf = directory_at(
                file,
                (h.leaf_offset + entry.offset) as u64,
                entry.length as u64,
            )->Ok_0;
            assert(check_after_leaf(file, h, root, i, found, leaf) is Ok);
            lemma_first_wrong_entry_is_named(leaf, h.data_length);
            lemma_check_goes_on(file, h, root, i + 1, found + leaf.len());
        } else {
            lemma_check_goes_on(file, h, root, i + 1, found + 1);
        }
        assert(stands(file, h, root, i as int));
    }
}

/// An archive that passes its check has its data section within the file, every
/// entry of its root and of its leaves points into that section, and there are as
/// many tile entries as its header says.
pub proof fn lemma_checked_archive_is_consistent(file: Seq<u8>, h: Header)
    requires
        check_archive(file, h) is Ok,
    ensures
        h.data_offset + h.data_length <= file.len(),
        directory_at(file, h.root_offset, h.root_length) is Ok,
        ({
            let root = directory_at(file, h.root_offset, h.root_length)->Ok_0;
            &&& forall|j: int| 0 <= j < root.len() ==> #[trigger] stands(file, h, root, j)
            &&& entries_behind(file, h, root, 0) == h.tile_entries
        }),
{
    let root = directory_at(file, h.root_offset, h.root_length)->Ok_0;
    lemma_check_goes_on(file, h, root, 0, 0);
}

} // verus!
