//! The fixed 127-byte archive header.
use crate::text::{decimal, decimal_text, has_part, lemma_has_part, lemma_is_suffix};
use vstd::prelude::*;

verus! {

/// The header's size in bytes.
pub const HEADER_LEN: usize = 127;

/// The header and the compressed root directory together fit in 16384 bytes,
/// so that a client can fetch both in one range request.
pub const MAX_ROOT_DIR_LEN: usize = 16257;

/// The layout version that is written and read.
pub const VERSION: u8 = 3;

/// Compression of a section (header bytes 97 and 98).
#[derive(Debug, Clone, Copy, PartialEq, Eq, Structural)]
pub enum Compressed {
    Raw,
    Gzip,
}

/// Kind of the tiles (header byte 99).
#[derive(Debug, Clone, Copy, PartialEq, Eq, Structural)]
pub enum TileType {
    Mvt,
}

/// The fixed 127-byte header.
///
/// Positions are whole numbers of ten-millionths of a degree, the unit in which
/// they are stored.
#[derive(Debug, Clone, Copy, PartialEq, Eq)]
pub struct Header {
    pub root_offset: u64,
    pub root_length: u64,
    pub metadata_offset: u64,
    pub metadata_length: u64,
    pub leaf_offset: u64,
    pub leaf_length: u64,
    pub data_offset: u64,
    pub data_length: u64,
    pub addressed_tiles: u64,
    pub tile_entries: u64,
    pub tile_contents: u64,
    pub clustered: bool,
    pub internal_compression: Compressed,
    pub tile_compression: Compressed,
    pub tile_type: TileType,
    pub min_zoom: u8,
    pub max_zoom: u8,
    /// (min_lon, min_lat, max_lon, max_lat)
    pub bounds: (i32, i32, i32, i32),
    pub center_zoom: u8,
    /// (lon, lat)
    pub center: (i32, i32),
}

/// Why bytes are not a header.
#[derive(Debug, Clone, Copy, PartialEq, Eq, Structural)]
pub enum HeaderError {
    /// There are fewer bytes than a header has.
    TooShort(usize),
    /// The bytes do not start with the archive's magic number.
    BadMagic,
    UnsupportedVersion(u8),
    UnsupportedInternalCompression(u8),
    UnsupportedTileCompression(u8),
    UnsupportedTileType(u8),
}

/// The magic number: `PMTiles` in ASCII.
pub open spec fn magic() -> Seq<u8> {
    seq![0x50u8, 0x4D, 0x54, 0x69, 0x6C, 0x65, 0x73]
}

/// The byte that stands for a compression.
pub open spec fn compression_code(c: Compressed) -> u8 {
    match c {
        Compressed::Raw => 1,
        Compressed::Gzip => 2,
    }
}

/// The eleven 64-bit fields in the order in which they are stored.
pub open spec fn word(h: Header, k: int) -> u64 {
    if k == 0 {
        h.root_offset
    } else if k == 1 {
        h.root_length
    } else if k == 2 {
        h.metadata_offset
    } else if k == 3 {
        h.metadata_length
    } else if k == 4 {
        h.leaf_offset
    } else if k == 5 {
        h.leaf_length
    } else if k == 6 {
        h.data_offset
    } else if k == 7 {
        h.data_length
    } else if k == 8 {
        h.addressed_tiles
    } else if k == 9 {
        h.tile_entries
    } else {
        h.tile_contents
    }
}

/// A signed 32-bit number as the unsigned one with the same bits.
pub open spec fn twos_complement(v: i32) -> u64 {
    if v < 0 {
        (v + 0x1_0000_0000) as u64
    } else {
        v as u64
    }
}

/// The inverse of `twos_complement`.
pub open spec fn signed(v: int) -> i32 {
    if v < 0x8000_0000 {
        v as i32
    } else {
        (v - 0x1_0000_0000) as i32
    }
}

/// Byte `k` of a number, the lowest first.
pub open spec fn le_byte(v: u64, k: int) -> u8 {
    ((v >> ((8 * k) as u64)) & 0xff) as u8
}

/// Byte `i` of the stored header.
pub open spec fn header_byte(h: Header, i: int) -> u8 {
    if i < 7 {
        magic()[i]
    } else if i == 7 {
        VERSION
    } else if i < 96 {
        le_byte(word(h, (i - 8) / 8), (i - 8) % 8)
    } else if i == 96 {
        if h.clustered {
            1
        } else {
            0
        }
    } else if i == 97 {
        compression_code(h.internal_compression)
    } else if i == 98 {
        compression_code(h.tile_compression)
    } else if i == 99 {
        1
    } else if i == 100 {
        h.min_zoom
    } else if i == 101 {
        h.max_zoom
    } else if i < 106 {
        le_byte(twos_complement(h.bounds.0), i - 102)
    } else if i < 110 {
        le_byte(twos_complement(h.bounds.1), i - 106)
    } else if i < 114 {
        le_byte(twos_complement(h.bounds.2), i - 110)
    } else if i < 118 {
        le_byte(twos_complement(h.bounds.3), i - 114)
    } else if i == 118 {
        h.center_zoom
    } else if i < 123 {
        le_byte(twos_complement(h.center.0), i - 119)
    } else {
        le_byte(twos_complement(h.center.1), i - 123)
    }
}

/// The stored form of a header.
pub open spec fn header_bytes(h: Header) -> Seq<u8> {
    Seq::new(127, |i: int| header_byte(h, i))
}

/// The number that four bytes spell, lowest first.
pub open spec fn le32(b: Seq<u8>, i: int) -> int {
    b[i] + 0x100 * b[i + 1] + 0x1_0000 * b[i + 2] + 0x100_0000 * b[i + 3]
}

/// The number that eight bytes spell, lowest first.
pub open spec fn le64(b: Seq<u8>, i: int) -> int {
    le32(b, i) + 0x1_0000_0000 * le32(b, i + 4)
}

/// The compression that a byte stands for.
pub open spec fn compression_of(code: u8) -> Option<Compressed> {
    if code == 1 {
        Some(Compressed::Raw)
    } else if code == 2 {
        Some(Compressed::Gzip)
    } else {
        None
    }
}

/// What bytes say when read as a header; bytes behind the header do not count.
pub open spec fn parse_header(b: Seq<u8>) -> Result<Header, HeaderError> {
    if b.len() < 127 {
        Err(HeaderError::TooShort(b.len() as usize))
    } else if b.take(7) != magic() {
        Err(HeaderError::BadMagic)
    } else if b[7] != VERSION {
        Err(HeaderError::UnsupportedVersion(b[7]))
    } else if compression_of(b[97]) is None {
        Err(HeaderError::UnsupportedInternalCompression(b[97]))
    } else if compression_of(b[98]) is None {
        Err(HeaderError::UnsupportedTileCompression(b[98]))
    } else if b[99] != 1 {
        Err(HeaderError::UnsupportedTileType(b[99]))
    } else {
        Ok(
            Header {
                root_offset: le64(b, 8) as u64,
                root_length: le64(b, 16) as u64,
                metadata_offset: le64(b, 24) as u64,
                metadata_length: le64(b, 32) as u64,
                leaf_offset: le64(b, 40) as u64,
                leaf_length: le64(b, 48) as u64,
                data_offset: le64(b, 56) as u64,
                data_length: le64(b, 64) as u64,
                addressed_tiles: le64(b, 72) as u64,
                tile_entries: le64(b, 80) as u64,
                tile_contents: le64(b, 88) as u64,
                clustered: b[96] == 1,
                internal_compression: compression_of(b[97])->0,
                tile_compression: compression_of(b[98])->0,
                tile_type: TileType::Mvt,
                min_zoom: b[100],
                max_zoom: b[101],
                bounds: (
                    signed(le32(b, 102)),
                    signed(le32(b, 106)),
                    signed(le32(b, 110)),
                    signed(le32(b, 114)),
                ),
                center_zoom: b[118],
                center: (signed(le32(b, 119)), signed(le32(b, 123))),
            },
        )
    }
}

pub(crate) fn le_byte_of(v: u64, k: usize) -> (b: u8)
    requires
        k < 8,
    ensures
        b == le_byte(v, k as int),
{
    let shift: u64 = 8 * k as u64;
    ((v >> shift) & 0xff) as u8
}

fn twos_complement_of(v: i32) -> (u: u64)
    ensures
        u == twos_complement(v),
{
    if v < 0 {
        (v as i64 + 0x1_0000_0000) as u64
    } else {
        v as u64
    }
}

fn signed_of(v: u64) -> (s: i32)
    requires
        v <= 0xffff_ffff,
    ensures
        s == signed(v as int),
{
    if v < 0x8000_0000 {
        v as i32
    } else {
        (v as i64 - 0x1_0000_0000) as i32
    }
}

fn le32_of(b: &[u8], i: usize) -> (v: u64)
    requires
        i + 4 <= b.len(),
    ensures
        v == le32(b@, i as int),
        v <= 0xffff_ffff,
{
    b[i] as u64 + 0x100 * b[i + 1] as u64 + 0x1_0000 * b[i + 2] as u64 + 0x100_0000 * b[i
        + 3] as u64
}

pub(crate) fn le64_of(b: &[u8], i: usize) -> (v: u64)
    requires
        i + 8 <= b.len(),
    ensures
        v == le64(b@, i as int),
{
    le32_of(b, i) + 0x1_0000_0000 * le32_of(b, i + 4)
}

fn compression_from(code: u8) -> (c: Option<Compressed>)
    ensures
        c == compression_of(code),
{
    if code == 1 {
        Some(Compressed::Raw)
    } else if code == 2 {
        Some(Compressed::Gzip)
    } else {
        None
    }
}

impl Compressed {
    /// The byte that stands for the compression in a header.
    pub fn code(self) -> (code: u8)
        ensures
            code == compression_code(self),
    {
        match self {
            Compressed::Raw => 1,
            Compressed::Gzip => 2,
        }
    }
}

impl Header {
    fn word_at(&self, k: usize) -> (v: u64)
        ensures
            v == word(*self, k as int),
    {
        match k {
            0 => self.root_offset,
            1 => self.root_length,
            2 => self.metadata_offset,
            3 => self.metadata_length,
            4 => self.leaf_offset,
            5 => self.leaf_length,
            6 => self.data_offset,
            7 => self.data_length,
            8 => self.addressed_tiles,
            9 => self.tile_entries,
            _ => self.tile_contents,
        }
    }

    fn byte_at(&self, i: usize) -> (b: u8)
        requires
            i < 127,
        ensures
            b == header_byte(*self, i as int),
    {
        if i < 7 {
            let letters: [u8; 7] = [0x50, 0x4D, 0x54, 0x69, 0x6C, 0x65, 0x73];
            assert(letters@ =~= magic());
            letters[i]
        } else if i == 7 {
            VERSION
        } else if i < 96 {
            le_byte_of(self.word_at((i - 8) / 8), (i - 8) % 8)
        } else if i == 96 {
            if self.clustered {
                1
            } else {
                0
            }
        } else if i == 97 {
            self.internal_compression.code()
        } else if i == 98 {
            self.tile_compression.code()
        } else if i == 99 {
            1
        } else if i == 100 {
            self.min_zoom
        } else if i == 101 {
            self.max_zoom
        } else if i < 106 {
            le_byte_of(twos_complement_of(self.bounds.0), i - 102)
        } else if i < 110 {
            le_byte_of(twos_complement_of(self.bounds.1), i - 106)
        } else if i < 114 {
            le_byte_of(twos_complement_of(self.bounds.2), i - 110)
        } else if i < 118 {
            le_byte_of(twos_complement_of(self.bounds.3), i - 114)
        } else if i == 118 {
            self.center_zoom
        } else if i < 123 {
            le_byte_of(twos_complement_of(self.center.0), i - 119)
        } else {
            le_byte_of(twos_complement_of(self.center.1), i - 123)
        }
    }

    /// The stored form.
    pub fn to_bytes(&self) -> (out: [u8; HEADER_LEN])
        ensures
            out@ == header_bytes(*self),
    {
        let mut out: [u8; HEADER_LEN] = [0u8; HEADER_LEN];
        let mut i: usize = 0;
        while i < HEADER_LEN
            invariant
                i <= 127,
                out@.len() == 127,
                forall|k: int| 0 <= k < i ==> #[trigger] out@[k] == header_byte(*self, k),
            decreases 127 - i,
        {
            out[i] = self.byte_at(i);
            i = i + 1;
        }
        assert(out@ =~= header_bytes(*self));
        out
    }

    /// Read a header from the first bytes of an archive.
    pub fn from_bytes(bytes: &[u8]) -> (res: Result<Header, HeaderError>)
        ensures
            res == parse_header(bytes@),
    {
        if bytes.len() < HEADER_LEN {
            return Err(HeaderError::TooShort(bytes.len()));
        }
        let letters_match: bool = bytes[0] == 0x50 && bytes[1] == 0x4D && bytes[2] == 0x54
            && bytes[3] == 0x69 && bytes[4] == 0x6C && bytes[5] == 0x65 && bytes[6] == 0x73;
        proof {
            let m = magic();
            if letters_match {
                assert(bytes@.take(7) =~= m);
            } else {
                assert(m[0] == 0x50 && m[1] == 0x4D && m[2] == 0x54 && m[3] == 0x69 && m[4] == 0x6C
                    && m[5] == 0x65 && m[6] == 0x73);
                let t = bytes@.take(7);
                assert(t[0] == bytes@[0] && t[1] == bytes@[1] && t[2] == bytes@[2] && t[3]
                    == bytes@[3] && t[4] == bytes@[4] && t[5] == bytes@[5] && t[6] == bytes@[6]);
            }
        }
        if !letters_match {
            return Err(HeaderError::BadMagic);
        }
        if bytes[7] != VERSION {
            return Err(HeaderError::UnsupportedVersion(bytes[7]));
        }
        let internal_compression: Compressed = match compression_from(bytes[97]) {
            Some(c) => c,
            None => {
                return Err(HeaderError::UnsupportedInternalCompression(bytes[97]));
            },
        };
        let tile_compression: Compressed = match compression_from(bytes[98]) {
            Some(c) => c,
            None => {
                return Err(HeaderError::UnsupportedTileCompression(bytes[98]));
            },
        };
        if bytes[99] != 1 {
            return Err(HeaderError::UnsupportedTileType(bytes[99]));
        }
        Ok(
            Header {
                root_offset: le64_of(bytes, 8),
                root_length: le64_of(bytes, 16),
                metadata_offset: le64_of(bytes, 24),
                metadata_length: le64_of(bytes, 32),
                leaf_offset: le64_of(bytes, 40),
                leaf_length: le64_of(bytes, 48),
                data_offset: le64_of(bytes, 56),
                data_length: le64_of(bytes, 64),
                addressed_tiles: le64_of(bytes, 72),
                tile_entries: le64_of(bytes, 80),
                tile_contents: le64_of(bytes, 88),
                clustered: bytes[96] == 1,
                internal_compression,
                tile_compression,
                tile_type: TileType::Mvt,
                min_zoom: bytes[100],
                max_zoom: bytes[101],
                bounds: (
                    signed_of(le32_of(bytes, 102)),
                    signed_of(le32_of(bytes, 106)),
                    signed_of(le32_of(bytes, 110)),
                    signed_of(le32_of(bytes, 114)),
                ),
                center_zoom: bytes[118],
                center: (signed_of(le32_of(bytes, 119)), signed_of(le32_of(bytes, 123))),
            },
        )
    }
}

/// The bytes of a number spell it.
pub proof fn lemma_bytes_of_word(v: u64)
    ensures
        le_byte(v, 0) + 0x100 * le_byte(v, 1) + 0x1_0000 * le_byte(v, 2) + 0x100_0000 * le_byte(
            v,
            3,
        ) + 0x1_0000_0000 * (le_byte(v, 4) + 0x100 * le_byte(v, 5) + 0x1_0000 * le_byte(v, 6)
            + 0x100_0000 * le_byte(v, 7)) == v,
        v <= 0xffff_ffff ==> le_byte(v, 0) + 0x100 * le_byte(v, 1) + 0x1_0000 * le_byte(v, 2)
            + 0x100_0000 * le_byte(v, 3) == v,
{
    assert((v >> 0) & 0xff <= 0xff && (v >> 8) & 0xff <= 0xff && (v >> 16) & 0xff <= 0xff && (v
        >> 24) & 0xff <= 0xff && (v >> 32) & 0xff <= 0xff && (v >> 40) & 0xff <= 0xff && (v >> 48)
        & 0xff <= 0xff && (v >> 56) & 0xff <= 0xff) by (bit_vector);
    assert(((v >> 0) & 0xff) + 0x100 * ((v >> 8) & 0xff) + 0x1_0000 * ((v >> 16) & 0xff)
        + 0x100_0000 * ((v >> 24) & 0xff) + 0x1_0000_0000 * ((v >> 32) & 0xff) + 0x100_0000_0000
        * ((v >> 40) & 0xff) + 0x1_0000_0000_0000 * ((v >> 48) & 0xff) + 0x100_0000_0000_0000 * ((v
        >> 56) & 0xff) == v) by (bit_vector);
    assert(v <= 0xffff_ffff ==> (v >> 32) & 0xff == 0 && (v >> 40) & 0xff == 0 && (v >> 48) & 0xff
        == 0 && (v >> 56) & 0xff == 0) by (bit_vector);
}

proof fn lemma_word_round_trip(h: Header, b: Seq<u8>, k: int)
    requires
        0 <= k < 11,
        b.len() >= 127,
        forall|i: int| 0 <= i < 127 ==> #[trigger] b[i] == header_byte(h, i),
    ensures
        le64(b, 8 + 8 * k) == word(h, k),
{
    let a = 8 + 8 * k;
    lemma_bytes_of_word(word(h, k));
    assert forall|j: int| 0 <= j < 8 implies b[a + j] == #[trigger] le_byte(word(h, k), j) by {
        assert((a + j - 8) / 8 == k && (a + j - 8) % 8 == j);
        assert(b[a + j] == header_byte(h, a + j));
    }
    assert(b[a] == le_byte(word(h, k), 0));
}

proof fn lemma_position_round_trip(v: i32, b: Seq<u8>, a: int)
    requires
        0 <= a,
        a + 4 <= b.len(),
        b[a] == le_byte(twos_complement(v), 0),
        b[a + 1] == le_byte(twos_complement(v), 1),
        b[a + 2] == le_byte(twos_complement(v), 2),
        b[a + 3] == le_byte(twos_complement(v), 3),
    ensures
        signed(le32(b, a)) == v,
{
    lemma_bytes_of_word(twos_complement(v));
}

/// What is written is what is read: the stored form of a header, whatever
/// follows it, reads back as the header.
pub proof fn lemma_header_round_trip(h: Header, tail: Seq<u8>)
    ensures
        parse_header(header_bytes(h) + tail) == Ok::<Header, HeaderError>(h),
{
    let b = header_bytes(h) + tail;
    assert forall|i: int| 0 <= i < 127 implies #[trigger] b[i] == header_byte(h, i) by {
        assert(b[i] == header_bytes(h)[i]);
    }
    assert(b.take(7) =~= magic());
    lemma_word_round_trip(h, b, 0);
    lemma_word_round_trip(h, b, 1);
    lemma_word_round_trip(h, b, 2);
    lemma_word_round_trip(h, b, 3);
    lemma_word_round_trip(h, b, 4);
    lemma_word_round_trip(h, b, 5);
    lemma_word_round_trip(h, b, 6);
    lemma_word_round_trip(h, b, 7);
    lemma_word_round_trip(h, b, 8);
    lemma_word_round_trip(h, b, 9);
    lemma_word_round_trip(h, b, 10);
    lemma_position_round_trip(h.bounds.0, b, 102);
    lemma_position_round_trip(h.bounds.1, b, 106);
    lemma_position_round_trip(h.bounds.2, b, 110);
    lemma_position_round_trip(h.bounds.3, b, 114);
    lemma_position_round_trip(h.center.0, b, 119);
    lemma_position_round_trip(h.center.1, b, 123);
}

impl HeaderError {
    /// The message of the error.
    pub open spec fn spec_message(self) -> Seq<char> {
        match self {
            HeaderError::TooShort(len) => "PMTiles header is "@ + decimal(len as nat)
                + " bytes, expected 127"@,
            HeaderError::BadMagic => "not a PMTiles archive (bad magic number)"@,
            HeaderError::UnsupportedVersion(v) => "PMTiles version "@ + decimal(v as nat)
                + " is not supported (expected 3)"@,
            HeaderError::UnsupportedInternalCompression(c) => "unsupported internal compression "@
                + decimal(c as nat),
            HeaderError::UnsupportedTileCompression(c) => "unsupported tile compression "@
                + decimal(c as nat),
            HeaderError::UnsupportedTileType(t) => "unsupported tile type "@ + decimal(t as nat),
        }
    }

    /// The error in words.
    pub fn message(&self) -> (text: String)
        ensures
            text@ == self.spec_message(),
    {
        match self {
            HeaderError::TooShort(len) => {
                let mut text: String = "PMTiles header is ".to_owned();
                text.append(decimal_text(*len as u64).as_str());
                text.append(" bytes, expected 127");
                text
            },
            HeaderError::BadMagic => "not a PMTiles archive (bad magic number)".to_owned(),
            HeaderError::UnsupportedVersion(v) => {
                let mut text: String = "PMTiles version ".to_owned();
                text.append(decimal_text(*v as u64).as_str());
                text.append(" is not supported (expected 3)");
                text
            },
            HeaderError::UnsupportedInternalCompression(c) => {
                let mut text: String = "unsupported internal compression ".to_owned();
                text.append(decimal_text(*c as u64).as_str());
                text
            },
            HeaderError::UnsupportedTileCompression(c) => {
                let mut text: String = "unsupported tile compression ".to_owned();
                text.append(decimal_text(*c as u64).as_str());
                text
            },
            HeaderError::UnsupportedTileType(t) => {
                let mut text: String = "unsupported tile type ".to_owned();
                text.append(decimal_text(*t as u64).as_str());
                text
            },
        }
    }
}

/// The number that `n` bytes from place `i` on spell, lowest first.
pub open spec fn spelled(b: Seq<u8>, i: int, n: nat) -> int
    decreases n,
{
    if n == 0 {
        0
    } else {
        b[i] + 0x100 * spelled(b, i + 1, (n - 1) as nat)
    }
}

proof fn lemma_word_is_spelled(h: Header, k: int)
    requires
        0 <= k < 11,
    ensures
        spelled(header_bytes(h), 8 + 8 * k, 8) == word(h, k),
{
    reveal_with_fuel(spelled, 9);
    let b = header_bytes(h);
    let v = word(h, k);
    lemma_bytes_of_word(v);
    assert forall|j: int| 0 <= j < 8 implies b[8 + 8 * k + j] == #[trigger] le_byte(v, j) by {
        assert((8 * k + j) / 8 == k && (8 * k + j) % 8 == j);
    }
    assert(b[8 + 8 * k] == le_byte(v, 0));
    assert(b[8 + 8 * k + 1] == le_byte(v, 1));
    assert(b[8 + 8 * k + 2] == le_byte(v, 2));
    assert(b[8 + 8 * k + 3] == le_byte(v, 3));
    assert(b[8 + 8 * k + 4] == le_byte(v, 4));
    assert(b[8 + 8 * k + 5] == le_byte(v, 5));
    assert(b[8 + 8 * k + 6] == le_byte(v, 6));
    assert(b[8 + 8 * k + 7] == le_byte(v, 7));
}

proof fn lemma_half_word_is_spelled(b: Seq<u8>, i: int, v: i32)
    requires
        b[i] == le_byte(twos_complement(v), 0),
        b[i + 1] == le_byte(twos_complement(v), 1),
        b[i + 2] == le_byte(twos_complement(v), 2),
        b[i + 3] == le_byte(twos_complement(v), 3),
    ensures
        spelled(b, i, 4) == if v < 0 {
            v + 0x1_0000_0000
        } else {
            v as int
        },
{
    reveal_with_fuel(spelled, 5);
    lemma_bytes_of_word(twos_complement(v));
}

/// Every field of a header has its place: the name of the format and its version
/// first, then the places and lengths of the four sections, the three counts, the
/// flags, the zooms and the coordinates, all numbers lowest byte first.
pub proof fn lemma_header_fields_have_their_places(h: Header)
    ensures
        ({
            let b = header_bytes(h);
            &&& b.len() == 127
            &&& b[0] == 'P' as int && b[1] == 'M' as int && b[2] == 'T' as int && b[3] == 'i' as int
                && b[4] == 'l' as int && b[5] == 'e' as int && b[6] == 's' as int
            &&& b[7] == 3
            &&& spelled(b, 8, 8) == h.root_offset
            &&& spelled(b, 16, 8) == h.root_length
            &&& spelled(b, 24, 8) == h.metadata_offset
            &&& spelled(b, 32, 8) == h.metadata_length
            &&& spelled(b, 40, 8) == h.leaf_offset
            &&& spelled(b, 48, 8) == h.leaf_length
            &&& spelled(b, 56, 8) == h.data_offset
            &&& spelled(b, 64, 8) == h.data_length
            &&& spelled(b, 72, 8) == h.addressed_tiles
            &&& spelled(b, 80, 8) == h.tile_entries
            &&& spelled(b, 88, 8) == h.tile_contents
            &&& b[96] == 1 <==> h.clustered
            &&& b[96] <= 1
            &&& b[97] == match h.internal_compression {
                Compressed::Raw => 1int,
                Compressed::Gzip => 2,
            }
            &&& b[98] == match h.tile_compression {
                Compressed::Raw => 1int,
                Compressed::Gzip => 2,
            }
            &&& b[99] == 1
            &&& b[100] == h.min_zoom
            &&& b[101] == h.max_zoom
            &&& b[118] == h.center_zoom
        }),
{
    lemma_word_is_spelled(h, 0);
    lemma_word_is_spelled(h, 1);
    lemma_word_is_spelled(h, 2);
    lemma_word_is_spelled(h, 3);
    lemma_word_is_spelled(h, 4);
    lemma_word_is_spelled(h, 5);
    lemma_word_is_spelled(h, 6);
    lemma_word_is_spelled(h, 7);
    lemma_word_is_spelled(h, 8);
    lemma_word_is_spelled(h, 9);
    lemma_word_is_spelled(h, 10);
}

/// The bounds and the centre stand behind the zooms: the western, southern, eastern
/// and northern edge, and behind the centre's zoom its longitude and latitude. A
/// negative number is written as the one larger by two to the power of 32.
pub proof fn lemma_header_coordinates_have_their_places(h: Header)
    ensures
        ({
            let b = header_bytes(h);
            let written = |v: i32|
                if v < 0 {
                    v + 0x1_0000_0000
                } else {
                    v as int
                };
            &&& spelled(b, 102, 4) == written(h.bounds.0)
            &&& spelled(b, 106, 4) == written(h.bounds.1)
            &&& spelled(b, 110, 4) == written(h.bounds.2)
            &&& spelled(b, 114, 4) == written(h.bounds.3)
            &&& spelled(b, 119, 4) == written(h.center.0)
            &&& spelled(b, 123, 4) == written(h.center.1)
        }),
{
    let b = header_bytes(h);
    lemma_half_word_is_spelled(b, 102, h.bounds.0);
    lemma_half_word_is_spelled(b, 106, h.bounds.1);
    lemma_half_word_is_spelled(b, 110, h.bounds.2);
    lemma_half_word_is_spelled(b, 114, h.bounds.3);
    lemma_half_word_is_spelled(b, 119, h.center.0);
    lemma_half_word_is_spelled(b, 123, h.center.1);
}

/// Bytes are refused as a header for one of these reasons that holds: there are too
/// few of them, the name is another, the version is not 3, a compression is neither
/// none nor gzip, or the tiles are not vector tiles. They are taken where none holds.
pub proof fn lemma_headers_are_refused_for_a_reason(b: Seq<u8>)
    ensures
        match parse_header(b) {
            Err(HeaderError::TooShort(_)) => b.len() < 127,
            Err(HeaderError::BadMagic) => b.len() >= 127 && !(b[0] == 'P' as int && b[1]
                == 'M' as int && b[2] == 'T' as int && b[3] == 'i' as int && b[4] == 'l' as int
                && b[5] == 'e' as int && b[6] == 's' as int),
            Err(HeaderError::UnsupportedVersion(v)) => b.len() >= 127 && v == b[7] && v != 3,
            Err(HeaderError::UnsupportedInternalCompression(c)) => b.len() >= 127 && c == b[97] && c
                != 1 && c != 2,
            Err(HeaderError::UnsupportedTileCompression(c)) => b.len() >= 127 && c == b[98] && c
                != 1 && c != 2,
            Err(HeaderError::UnsupportedTileType(t)) => b.len() >= 127 && t == b[99] && t != 1,
            Ok(_) => b.len() >= 127 && b[7] == 3 && 1 <= b[97] <= 2 && 1 <= b[98] <= 2 && b[99] == 1,
        },
{
    if b.len() >= 127 {
        if b[0] == 'P' as int && b[1] == 'M' as int && b[2] == 'T' as int && b[3] == 'i' as int
            && b[4] == 'l' as int && b[5] == 'e' as int && b[6] == 's' as int {
            assert(b.take(7) =~= magic());
        }
    }
}

/// An error gives the number that was found.
pub proof fn lemma_header_error_gives_the_number(e: HeaderError)
    ensures
        match e {
            HeaderError::TooShort(len) => has_part(e.spec_message(), decimal(len as nat)),
            HeaderError::BadMagic => true,
            HeaderError::UnsupportedVersion(v) => has_part(e.spec_message(), decimal(v as nat)),
            HeaderError::UnsupportedInternalCompression(c) => decimal(c as nat).is_suffix_of(
                e.spec_message(),
            ),
            HeaderError::UnsupportedTileCompression(c) => decimal(c as nat).is_suffix_of(
                e.spec_message(),
            ),
            HeaderError::UnsupportedTileType(t) => decimal(t as nat).is_suffix_of(e.spec_message()),
        },
{
    match e {
        HeaderError::TooShort(len) => lemma_has_part(
            "PMTiles header is "@,
            decimal(len as nat),
            " bytes, expected 127"@,
        ),
        HeaderError::BadMagic => {},
        HeaderError::UnsupportedVersion(v) => lemma_has_part(
            "PMTiles version "@,
            decimal(v as nat),
            " is not supported (expected 3)"@,
        ),
        HeaderError::UnsupportedInternalCompression(c) => lemma_is_suffix(
            "unsupported internal compression "@,
            decimal(c as nat),
        ),
        HeaderError::UnsupportedTileCompression(c) => lemma_is_suffix(
            "unsupported tile compression "@,
            decimal(c as nat),
        ),
        HeaderError::UnsupportedTileType(t) => lemma_is_suffix(
            "unsupported tile type "@,
            decimal(t as nat),
        ),
    }
}

} // verus!
