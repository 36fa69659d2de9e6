//! Archive directories: which tile numbers exist and where their bytes are.
use crate::pmtiles::varint::{
    lemma_varint_of_prefix, lemma_varint_round_trip, read_varint, varint, varint_from, write_varint, VarintError,
};
use vstd::prelude::*;

verus! {

/// A directory that claims more entries than this is taken to be corrupt.
pub const MAX_ENTRIES: u64 = 10_000_000;

/// One directory entry: a tile, a run of identical tiles, or a leaf directory.
#[derive(Debug, Clone, Copy, PartialEq, Eq, Structural)]
pub struct Entry {
    pub tile_id: u64,
    /// Offset into the tile data section, or into the leaf section when this is
    /// a leaf pointer.
    pub offset: u64,
    pub length: u32,
    /// Number of consecutive tile numbers that share this blob. `0` marks a
    /// pointer to a leaf directory.
    pub run_length: u32,
}

/// Why a directory could not be read.
#[derive(Debug, Clone, Copy, PartialEq, Eq, Structural)]
pub enum DirectoryError {
    /// An integer of one of the columns could not be read.
    Varint(VarintError),
    /// The count is larger than any directory is expected to be.
    ImplausibleCount(u64),
    /// The tile numbers add up to more than 64 bits hold.
    TileIdOverflow,
    /// The first entry claims to stand directly behind a predecessor.
    FirstEntryContiguous,
    /// An entry stands further back than 64 bits can say.
    OffsetOverflow,
}

/// The entries stand in ascending order of their tile numbers.
pub open spec fn sorted(entries: Seq<Entry>) -> bool {
    forall|i: int, j: int|
        0 <= i <= j < entries.len() ==> (#[trigger] entries[i]).tile_id <= (
        #[trigger] entries[j]).tile_id
}

/// Where the blob of an entry ends.
pub open spec fn entry_end(entry: Entry) -> int {
    entry.offset + entry.length
}

/// The blob of entry `i` starts where that of its predecessor ends.
pub open spec fn contiguous(entries: Seq<Entry>, i: int) -> bool {
    i > 0 && entries[i].offset == entry_end(entries[i - 1])
}

/// Every offset that is worked out or written down fits in 64 bits.
pub open spec fn offsets_fit(entries: Seq<Entry>) -> bool {
    &&& forall|i: int|
        0 <= i < entries.len() - 1 ==> entry_end(#[trigger] entries[i]) <= u64::MAX
    &&& forall|i: int|
        0 <= i < entries.len() && !(#[trigger] contiguous(entries, i)) ==> entries[i].offset
            < u64::MAX
}

/// The integers of a column, one behind the other.
pub open spec fn varints(values: Seq<nat>) -> Seq<u8>
    decreases values.len(),
{
    if values.len() == 0 {
        Seq::empty()
    } else {
        varints(values.drop_last()) + varint(values.last())
    }
}

/// The tile number before entry `i`; zero before the first.
pub open spec fn id_before(entries: Seq<Entry>, i: int) -> int {
    if i == 0 {
        0
    } else {
        entries[i - 1].tile_id as int
    }
}

/// Tile numbers, each as the difference to the one before.
pub open spec fn id_column(entries: Seq<Entry>) -> Seq<nat> {
    Seq::new(entries.len(), |i: int| (entries[i].tile_id - id_before(entries, i)) as nat)
}

pub open spec fn run_column(entries: Seq<Entry>) -> Seq<nat> {
    Seq::new(entries.len(), |i: int| entries[i].run_length as nat)
}

pub open spec fn length_column(entries: Seq<Entry>) -> Seq<nat> {
    Seq::new(entries.len(), |i: int| entries[i].length as nat)
}

/// How an offset is written: zero for "directly behind the previous blob",
/// which is the common case, and otherwise one more than the offset.
pub open spec fn offset_code(entries: Seq<Entry>, i: int) -> nat {
    if contiguous(entries, i) {
        0
    } else {
        (entries[i].offset + 1) as nat
    }
}

pub open spec fn offset_column(entries: Seq<Entry>) -> Seq<nat> {
    Seq::new(entries.len(), |i: int| offset_code(entries, i))
}

/// The bytes of a directory: a count, then one column per field.
pub open spec fn directory_bytes(entries: Seq<Entry>) -> Seq<u8> {
    varint(entries.len()) + varints(id_column(entries)) + varints(run_column(entries)) + varints(
        length_column(entries),
    ) + varints(offset_column(entries))
}

/// `n` integers read one behind the other, and the position behind the last.
pub open spec fn column_at(bytes: Seq<u8>, pos: nat, n: nat) -> Result<
    (Seq<u64>, nat),
    VarintError,
>
    decreases n,
{
    if n == 0 {
        Ok((Seq::empty(), pos))
    } else {
        match column_at(bytes, pos, (n - 1) as nat) {
            Err(e) => Err(e),
            Ok((values, p)) => match varint_from(bytes, p as int) {
                Err(e) => Err(e),
                Ok((value, used)) => Ok((values.push(value), p + used)),
            },
        }
    }
}

/// The sum of the first `n` differences.
pub open spec fn id_sum(deltas: Seq<u64>, n: nat) -> nat
    decreases n,
{
    if n == 0 {
        0
    } else {
        id_sum(deltas, (n - 1) as nat) + deltas[n - 1] as nat
    }
}

/// The low 32 bits of a column value.
pub open spec fn low32(value: u64) -> u32 {
    (value % 0x1_0000_0000) as u32
}

/// The offset that the codes up to `i` stand for.
pub open spec fn offset_at(codes: Seq<u64>, lengths: Seq<u64>, i: int) -> int
    decreases i,
{
    if i <= 0 || codes[i] != 0 {
        codes[i] - 1
    } else {
        offset_at(codes, lengths, i - 1) + low32(lengths[i - 1])
    }
}

/// The entries that four columns stand for.
pub open spec fn entries_of(
    deltas: Seq<u64>,
    runs: Seq<u64>,
    lengths: Seq<u64>,
    codes: Seq<u64>,
) -> Seq<Entry> {
    Seq::new(
        deltas.len(),
        |i: int|
            Entry {
                tile_id: id_sum(deltas, (i + 1) as nat) as u64,
                offset: offset_at(codes, lengths, i) as u64,
                length: low32(lengths[i]),
                run_length: low32(runs[i]),
            },
    )
}

/// Some offset needs more than 64 bits.
pub open spec fn offsets_overflow(codes: Seq<u64>, lengths: Seq<u64>) -> bool {
    exists|i: int| 0 <= i < codes.len() && #[trigger] offset_at(codes, lengths, i) > u64::MAX
}

/// What the bytes of a directory say.
pub open spec fn parse_directory(bytes: Seq<u8>) -> Result<Seq<Entry>, DirectoryError> {
    match varint_from(bytes, 0) {
        Err(e) => Err(DirectoryError::Varint(e)),
        Ok((count, used)) => if count > MAX_ENTRIES {
            Err(DirectoryError::ImplausibleCount(count))
        } else {
            match column_at(bytes, used, count as nat) {
                Err(e) => Err(DirectoryError::Varint(e)),
                Ok((deltas, p1)) => if id_sum(deltas, count as nat) > u64::MAX {
                    Err(DirectoryError::TileIdOverflow)
                } else {
                    match column_at(bytes, p1, count as nat) {
                        Err(e) => Err(DirectoryError::Varint(e)),
                        Ok((runs, p2)) => match column_at(bytes, p2, count as nat) {
                            Err(e) => Err(DirectoryError::Varint(e)),
                            Ok((lengths, p3)) => if count > 0 && varint_from(bytes, p3 as int) is Ok
                                && varint_from(bytes, p3 as int)->Ok_0.0 == 0 {
                                Err(DirectoryError::FirstEntryContiguous)
                            } else {
                                match column_at(bytes, p3, count as nat) {
                                    Err(e) => Err(DirectoryError::Varint(e)),
                                    Ok((codes, _p4)) => if offsets_overflow(codes, lengths) {
                                        Err(DirectoryError::OffsetOverflow)
                                    } else {
                                        Ok(entries_of(deltas, runs, lengths, codes))
                                    },
                                }
                            },
                        },
                    }
                },
            }
        },
    }
}

proof fn lemma_varints_take(values: Seq<nat>, i: int)
    requires
        0 <= i < values.len(),
    ensures
        varints(values.take(i + 1)) == varints(values.take(i)) + varint(values[i]),
        values.take(values.len() as int) == values,
{
    assert(values.take(i + 1).drop_last() =~= values.take(i));
    assert(values.take(i + 1).last() == values[i]);
    assert(values.take(values.len() as int) =~= values);
}

/// Serialize directory entries: a count, then one column per field.
///
/// The entries must be sorted by ascending tile number, since the numbers are
/// written as differences.
pub fn serialize_directory(entries: &[Entry]) -> (out: Vec<u8>)
    requires
        sorted(entries@),
        offsets_fit(entries@),
    ensures
        out@ == directory_bytes(entries@),
{
    let mut out: Vec<u8> = Vec::new();
    write_varint(&mut out, entries.len() as u64);
    let ghost ids = id_column(entries@);
    let ghost runs = run_column(entries@);
    let ghost lengths = length_column(entries@);
    let ghost codes = offset_column(entries@);
    let ghost n = entries@.len() as int;

    let ghost head = out@;
    proof {
        assert(head =~= varint(entries@.len()));
        assert(head + varints(ids.take(0)) =~= head);
    }
    let mut last_id: u64 = 0;
    for i in 0..entries.len()
        invariant
            sorted(entries@),
            ids == id_column(entries@),
            last_id == id_before(entries@, i as int),
            out@ == head + varints(ids.take(i as int)),
    {
        proof {
            lemma_varints_take(ids, i as int);
            assert(i > 0 ==> entries@[i - 1].tile_id <= entries@[i as int].tile_id);
            assert(head + varints(ids.take(i as int)) + varint(ids[i as int]) =~= head + (varints(
                ids.take(i as int),
            ) + varint(ids[i as int])));
        }
        let id: u64 = entries[i].tile_id;
        write_varint(&mut out, id - last_id);
        last_id = id;
    }

    let ghost head = out@;
    proof {
        assert(ids.take(n) =~= ids);
        assert(head + varints(runs.take(0)) =~= head);
    }
    for i in 0..entries.len()
        invariant
            runs == run_column(entries@),
            out@ == head + varints(runs.take(i as int)),
    {
        proof {
            lemma_varints_take(runs, i as int);
            assert(head + varints(runs.take(i as int)) + varint(runs[i as int]) =~= head + (varints(
                runs.take(i as int),
            ) + varint(runs[i as int])));
        }
        write_varint(&mut out, entries[i].run_length as u64);
    }

    let ghost head = out@;
    proof {
        assert(runs.take(n) =~= runs);
        assert(head + varints(lengths.take(0)) =~= head);
    }
    for i in 0..entries.len()
        invariant
            lengths == length_column(entries@),
            out@ == head + varints(lengths.take(i as int)),
    {
        proof {
            lemma_varints_take(lengths, i as int);
            assert(head + varints(lengths.take(i as int)) + varint(lengths[i as int]) =~= head + (
            varints(lengths.take(i as int)) + varint(lengths[i as int])));
        }
        write_varint(&mut out, entries[i].length as u64);
    }

    let ghost head = out@;
    proof {
        assert(lengths.take(n) =~= lengths);
        assert(head + varints(codes.take(0)) =~= head);
    }
    for i in 0..entries.len()
        invariant
            offsets_fit(entries@),
            codes == offset_column(entries@),
            out@ == head + varints(codes.take(i as int)),
    {
        proof {
            lemma_varints_take(codes, i as int);
            assert(head + varints(codes.take(i as int)) + varint(codes[i as int]) =~= head + (
            varints(codes.take(i as int)) + varint(codes[i as int])));
            assert(i > 0 ==> entry_end(entries@[i - 1]) <= u64::MAX);
            assert(contiguous(entries@, i as int) || entries@[i as int].offset < u64::MAX);
        }
        if i > 0 && entries[i].offset == entries[i - 1].offset + entries[i - 1].length as u64 {
            write_varint(&mut out, 0);
        } else {
            write_varint(&mut out, entries[i].offset + 1);
        }
    }
    proof {
        assert(codes.take(n) =~= codes);
    }
    out
}

/// Read `count` integers.
fn read_column(bytes: &[u8], pos: &mut usize, count: usize) -> (res: Result<
    Vec<u64>,
    VarintError,
>)
    requires
        *old(pos) <= bytes@.len(),
    ensures
        match column_at(bytes@, *old(pos) as nat, count as nat) {
            Ok((values, p)) => res is Ok && res->Ok_0@ == values && *final(pos) == p && p
                <= bytes@.len() && values.len() == count,
            Err(e) => res == Err::<Vec<u64>, VarintError>(e),
        },
{
    let ghost start = *pos as nat;
    let mut values: Vec<u64> = Vec::new();
    for i in 0..count
        invariant
            start == *old(pos),
            *pos <= bytes@.len(),
            values@.len() == i,
            column_at(bytes@, start, i as nat) == Ok::<(Seq<u64>, nat), VarintError>(
                (values@, *pos as nat),
            ),
    {
        match read_varint(bytes, pos) {
            Ok(value) => {
                values.push(value);
            },
            Err(e) => {
                proof {
                    lemma_column_error(bytes@, start, i as nat + 1, count as nat);
                }
                return Err(e);
            },
        }
    }
    Ok(values)
}

proof fn lemma_column_error(bytes: Seq<u8>, pos: nat, i: nat, n: nat)
    requires
        i <= n,
        column_at(bytes, pos, i) is Err,
    ensures
        column_at(bytes, pos, n) == column_at(bytes, pos, i),
    decreases n,
{
    if i < n {
        lemma_column_error(bytes, pos, i, (n - 1) as nat);
    }
}

proof fn lemma_first_of_column(bytes: Seq<u8>, pos: nat, n: nat)
    requires
        n > 0,
    ensures
        varint_from(bytes, pos as int) is Err ==> column_at(bytes, pos, n) is Err,
        column_at(bytes, pos, n) is Ok ==> varint_from(bytes, pos as int) is Ok && column_at(
            bytes,
            pos,
            n,
        )->Ok_0.0.len() == n && column_at(bytes, pos, n)->Ok_0.0[0] == varint_from(
            bytes,
            pos as int,
        )->Ok_0.0,
    decreases n,
{
    if n > 1 {
        lemma_first_of_column(bytes, pos, (n - 1) as nat);
    } else {
        assert(column_at(bytes, pos, 0) == Ok::<(Seq<u64>, nat), VarintError>((Seq::empty(), pos)));
    }
}

proof fn lemma_id_sum_monotonic(deltas: Seq<u64>, i: nat, n: nat)
    requires
        i <= n,
    ensures
        id_sum(deltas, i) <= id_sum(deltas, n),
    decreases n,
{
    if i < n {
        lemma_id_sum_monotonic(deltas, i, (n - 1) as nat);
    }
}

/// Parse a directory.
#[verifier::loop_isolation(false)]
pub fn deserialize_directory(bytes: &[u8]) -> (res: Result<Vec<Entry>, DirectoryError>)
    ensures
        match parse_directory(bytes@) {
            Ok(entries) => res is Ok && res->Ok_0@ == entries && entries.len() <= MAX_ENTRIES,
            Err(e) => res == Err::<Vec<Entry>, DirectoryError>(e),
        },
{
    let mut pos: usize = 0;
    let count: u64 = match read_varint(bytes, &mut pos) {
        Ok(count) => count,
        Err(e) => {
            return Err(DirectoryError::Varint(e));
        },
    };
    // A corrupt count must not lead to an enormous allocation.
    if count > MAX_ENTRIES {
        return Err(DirectoryError::ImplausibleCount(count));
    }
    let n: usize = count as usize;

    let deltas: Vec<u64> = match read_column(bytes, &mut pos, n) {
        Ok(values) => values,
        Err(e) => {
            return Err(DirectoryError::Varint(e));
        },
    };
    let mut ids: Vec<u64> = Vec::with_capacity(n);
    let mut last_id: u64 = 0;
    for i in 0..n
        invariant
            deltas@.len() == n,
            ids@.len() == i,
            last_id == id_sum(deltas@, i as nat),
            forall|k: int|
                0 <= k < i ==> #[trigger] ids@[k] == id_sum(deltas@, (k + 1) as nat),
    {
        proof {
            lemma_id_sum_monotonic(deltas@, i as nat + 1, n as nat);
        }
        let delta: u64 = deltas[i];
        if delta > u64::MAX - last_id {
            proof {
                assert(id_sum(deltas@, i as nat + 1) > u64::MAX);
            }
            return Err(DirectoryError::TileIdOverflow);
        }
        last_id = last_id + delta;
        ids.push(last_id);
    }

    let runs: Vec<u64> = match read_column(bytes, &mut pos, n) {
        Ok(values) => values,
        Err(e) => {
            return Err(DirectoryError::Varint(e));
        },
    };
    let lengths: Vec<u64> = match read_column(bytes, &mut pos, n) {
        Ok(values) => values,
        Err(e) => {
            return Err(DirectoryError::Varint(e));
        },
    };

    if n > 0 {
        let mut ahead: usize = pos;
        let first: Result<u64, VarintError> = read_varint(bytes, &mut ahead);
        if let Ok(code) = first {
            if code == 0 {
                return Err(DirectoryError::FirstEntryContiguous);
            }
        }
        proof {
            lemma_first_of_column(bytes@, pos as nat, n as nat);
        }
    }
    let codes: Vec<u64> = match read_column(bytes, &mut pos, n) {
        Ok(values) => values,
        Err(e) => {
            return Err(DirectoryError::Varint(e));
        },
    };

    let ghost expected = entries_of(deltas@, runs@, lengths@, codes@);
    let mut entries: Vec<Entry> = Vec::with_capacity(n);
    for i in 0..n
        invariant
            deltas@.len() == n,
            ids@.len() == n,
            runs@.len() == n,
            lengths@.len() == n,
            codes@.len() == n,
            n > 0 ==> codes@[0] != 0,
            expected == entries_of(deltas@, runs@, lengths@, codes@),
            forall|k: int|
                0 <= k < n ==> #[trigger] ids@[k] == id_sum(deltas@, (k + 1) as nat),
            entries@ == expected.take(i as int),
            forall|k: int|
                0 <= k < i ==> 0 <= #[trigger] offset_at(codes@, lengths@, k) <= u64::MAX,
    {
        let code: u64 = codes[i];
        let offset: u64 = if code != 0 {
            code - 1
        } else {
            let previous: Entry = entries[i - 1];
            proof {
                assert(previous == expected[i - 1]);
                assert(0 <= offset_at(codes@, lengths@, i - 1) <= u64::MAX);
                assert(offset_at(codes@, lengths@, i as int) == previous.offset + previous.length);
            }
            if previous.offset > u64::MAX - previous.length as u64 {
                proof {
                    assert(offset_at(codes@, lengths@, i as int) > u64::MAX);
                    assert(offsets_overflow(codes@, lengths@));
                }
                return Err(DirectoryError::OffsetOverflow);
            }
            previous.offset + previous.length as u64
        };
        assert(offset == offset_at(codes@, lengths@, i as int));
        let entry: Entry = Entry {
            tile_id: ids[i],
            offset,
            length: (lengths[i] % 0x1_0000_0000) as u32,
            run_length: (runs[i] % 0x1_0000_0000) as u32,
        };
        assert(entry == expected[i as int]);
        entries.push(entry);
        assert(expected.take(i as int).push(entry) =~= expected.take(i as int + 1));
    }
    proof {
        assert(expected.take(n as int) =~= expected);
        assert(!offsets_overflow(codes@, lengths@));
    }
    Ok(entries)
}

proof fn lemma_column_of_varints(head: Seq<u8>, values: Seq<nat>, tail: Seq<u8>)
    requires
        forall|i: int| 0 <= i < values.len() ==> #[trigger] values[i] <= u64::MAX,
    ensures
        ({
            let bytes = head + varints(values) + tail;
            column_at(bytes, head.len(), values.len()) == Ok::<(Seq<u64>, nat), VarintError>(
                (as_words(values), head.len() + varints(values).len()),
            )
        }),
    decreases values.len(),
{
    let bytes = head + varints(values) + tail;
    if values.len() == 0 {
        assert(as_words(values) =~= Seq::<u64>::empty());
    } else {
        let front = values.drop_last();
        let last = values.last();
        assert(last == values[values.len() - 1]);
        assert forall|i: int| 0 <= i < front.len() implies #[trigger] front[i] <= u64::MAX by {
            assert(front[i] == values[i]);
        }
        let rest = varint(last) + tail;
        lemma_column_of_varints(head, front, rest);
        assert(head + varints(front) + rest =~= bytes);
        let p = head.len() + varints(front).len();
        lemma_varint_round_trip(last as u64, tail);
        assert(bytes.skip(p as int) =~= varint(last) + tail);
        assert(p < bytes.len());
        assert(as_words(front).push(last as u64) =~= as_words(values));
        assert(varints(values).len() == varints(front).len() + varint(last).len());
    }
}

proof fn lemma_regroup(c: Seq<u8>, v1: Seq<u8>, v2: Seq<u8>, v3: Seq<u8>, v4: Seq<u8>, tail: Seq<u8>)
    ensures
        c + v1 + v2 + v3 + v4 + tail == c + (v1 + v2 + v3 + v4 + tail),
        c + v1 + v2 + v3 + v4 + tail == c + v1 + (v2 + v3 + v4 + tail),
        c + v1 + v2 + v3 + v4 + tail == (c + v1) + v2 + (v3 + v4 + tail),
        c + v1 + v2 + v3 + v4 + tail == (c + v1 + v2) + v3 + (v4 + tail),
{
    assert(c + v1 + v2 + v3 + v4 + tail =~= c + (v1 + v2 + v3 + v4 + tail));
    assert(c + v1 + v2 + v3 + v4 + tail =~= c + v1 + (v2 + v3 + v4 + tail));
    assert(c + v1 + v2 + v3 + v4 + tail =~= (c + v1) + v2 + (v3 + v4 + tail));
    assert(c + v1 + v2 + v3 + v4 + tail =~= (c + v1 + v2) + v3 + (v4 + tail));
}

spec fn as_words(values: Seq<nat>) -> Seq<u64> {
    Seq::new(values.len(), |i: int| values[i] as u64)
}

/// The columns of a directory stand for its entries.
proof fn lemma_columns_stand_for_entries(entries: Seq<Entry>)
    requires
        sorted(entries),
        offsets_fit(entries),
    ensures
        id_sum(as_words(id_column(entries)), entries.len()) <= u64::MAX,
        entries.len() > 0 ==> as_words(offset_column(entries))[0] != 0,
        !offsets_overflow(as_words(offset_column(entries)), as_words(length_column(entries))),
        entries_of(
            as_words(id_column(entries)),
            as_words(run_column(entries)),
            as_words(length_column(entries)),
            as_words(offset_column(entries)),
        ) == entries,
{
    let n = entries.len();
    let deltas = as_words(id_column(entries));
    let runs = as_words(run_column(entries));
    let lengths = as_words(length_column(entries));
    let codes = as_words(offset_column(entries));
    let parsed = entries_of(deltas, runs, lengths, codes);
    if n > 0 {
        lemma_id_sum_of_entries(entries, deltas, n - 1);
        assert(!contiguous(entries, 0));
        assert(codes[0] == entries[0].offset + 1);
    } else {
        assert(id_sum(deltas, 0) == 0);
    }
    assert forall|i: int| 0 <= i < codes.len() implies #[trigger] offset_at(codes, lengths, i)
        <= u64::MAX by {
        lemma_offset_of_entries(entries, codes, lengths, i);
    }
    assert forall|i: int| 0 <= i < n implies parsed[i] == entries[i] by {
        lemma_id_sum_of_entries(entries, deltas, i);
        lemma_offset_of_entries(entries, codes, lengths, i);
        assert(lengths[i] == entries[i].length as u64);
        assert(runs[i] == entries[i].run_length as u64);
    }
    assert(parsed =~= entries);
}

/// Where the columns of a directory stand, and what is read there.
proof fn lemma_columns_are_read(entries: Seq<Entry>, tail: Seq<u8>)
    requires
        sorted(entries),
        offsets_fit(entries),
        entries.len() <= MAX_ENTRIES,
    ensures
        ({
            let n = entries.len();
            let c = varint(n).len();
            let p1 = c + varints(id_column(entries)).len();
            let p2 = p1 + varints(run_column(entries)).len();
            let p3 = p2 + varints(length_column(entries)).len();
            let p4 = p3 + varints(offset_column(entries)).len();
            let bytes = directory_bytes(entries) + tail;
            &&& p4 == directory_bytes(entries).len()
            &&& varint_from(bytes, 0) == Ok::<(u64, nat), VarintError>((n as u64, c))
            &&& column_at(bytes, c, n) == Ok::<(Seq<u64>, nat), VarintError>(
                (as_words(id_column(entries)), p1),
            )
            &&& column_at(bytes, p1, n) == Ok::<(Seq<u64>, nat), VarintError>(
                (as_words(run_column(entries)), p2),
            )
            &&& column_at(bytes, p2, n) == Ok::<(Seq<u64>, nat), VarintError>(
                (as_words(length_column(entries)), p3),
            )
            &&& column_at(bytes, p3, n) == Ok::<(Seq<u64>, nat), VarintError>(
                (as_words(offset_column(entries)), p4),
            )
        }),
{
    let n = entries.len();
    let c = varint(n);
    let v1 = varints(id_column(entries));
    let v2 = varints(run_column(entries));
    let v3 = varints(length_column(entries));
    let v4 = varints(offset_column(entries));
    let bytes = directory_bytes(entries) + tail;
    lemma_regroup(c, v1, v2, v3, v4, tail);
    lemma_varint_round_trip(n as u64, v1 + v2 + v3 + v4 + tail);
    assert(bytes.skip(0) =~= bytes);
    assert(varint_from(bytes, 0) == Ok::<(u64, nat), VarintError>((n as u64, c.len())));

    assert forall|i: int| 0 <= i < n implies #[trigger] id_column(entries)[i] <= u64::MAX by {
        if i > 0 {
            assert(entries[i - 1].tile_id <= entries[i].tile_id);
        }
    }
    assert forall|i: int| 0 <= i < n implies #[trigger] offset_column(entries)[i] <= u64::MAX by {
        assert(entries[i].offset <= u64::MAX);
    }
    lemma_column_of_varints(c, id_column(entries), v2 + v3 + v4 + tail);
    lemma_column_of_varints(c + v1, run_column(entries), v3 + v4 + tail);
    lemma_column_of_varints(c + v1 + v2, length_column(entries), v4 + tail);
    lemma_column_of_varints(c + v1 + v2 + v3, offset_column(entries), tail);
}

/// What is written is what is read: the bytes of a directory, whatever follows
/// them, parse to the entries they were made from.
pub proof fn lemma_directory_round_trip(entries: Seq<Entry>, tail: Seq<u8>)
    requires
        sorted(entries),
        offsets_fit(entries),
        entries.len() <= MAX_ENTRIES,
    ensures
        parse_directory(directory_bytes(entries) + tail) == Ok::<Seq<Entry>, DirectoryError>(
            entries,
        ),
{
    let n = entries.len();
    let p3 = varint(n).len() + varints(id_column(entries)).len() + varints(
        run_column(entries),
    ).len() + varints(length_column(entries)).len();
    lemma_columns_are_read(entries, tail);
    lemma_columns_stand_for_entries(entries);
    if n > 0 {
        lemma_first_of_column(directory_bytes(entries) + tail, p3, n);
    }
}

proof fn lemma_column_of_prefix(bytes: Seq<u8>, pos: nat, n: nat, k: nat)
    requires
        pos <= k <= bytes.len(),
        column_at(bytes, pos, n) is Ok,
    ensures
        column_at(bytes, pos, n) matches Ok((values, p)) ==> pos <= p && column_at(
            bytes.take(k as int),
            pos,
            n,
        ) == if p <= k {
            Ok::<(Seq<u64>, nat), VarintError>((values, p))
        } else {
            Err::<(Seq<u64>, nat), VarintError>(VarintError::Truncated)
        },
    decreases n,
{
    if n > 0 {
        let m = (n - 1) as nat;
        lemma_column_of_prefix(bytes, pos, m, k);
        let p = column_at(bytes, pos, m)->Ok_0.1;
        lemma_varint_of_prefix(bytes, p, k);
    }
}

/// Every truncated directory is refused: of its bytes no first part, however long,
/// reads as a directory.
pub proof fn lemma_truncated_directory_is_refused(entries: Seq<Entry>, k: nat)
    requires
        sorted(entries),
        offsets_fit(entries),
        entries.len() <= MAX_ENTRIES,
        k < directory_bytes(entries).len(),
    ensures
        parse_directory(directory_bytes(entries).take(k as int)) == Err::<
            Seq<Entry>,
            DirectoryError,
        >(DirectoryError::Varint(VarintError::Truncated)),
{
    let n = entries.len();
    let bytes = directory_bytes(entries);
    let some = bytes.take(k as int);
    let c = varint(n).len();
    let p1 = c + varints(id_column(entries)).len();
    let p2 = p1 + varints(run_column(entries)).len();
    let p3 = p2 + varints(length_column(entries)).len();
    lemma_columns_are_read(entries, Seq::empty());
    assert(bytes + Seq::<u8>::empty() =~= bytes);
    lemma_columns_stand_for_entries(entries);
    lemma_varint_of_prefix(bytes, 0, k);
    if c <= k {
        lemma_column_of_prefix(bytes, c, n, k);
        if p1 <= k {
            lemma_column_of_prefix(bytes, p1, n, k);
            if p2 <= k {
                lemma_column_of_prefix(bytes, p2, n, k);
                if p3 <= k {
                    lemma_column_of_prefix(bytes, p3, n, k);
                    if n > 0 {
                        lemma_first_of_column(bytes, p3, n);
                        lemma_varint_of_prefix(bytes, p3, k);
                    }
                }
            }
        }
    }
}

proof fn lemma_id_sum_of_entries(entries: Seq<Entry>, deltas: Seq<u64>, i: int)
    requires
        sorted(entries),
        0 <= i < entries.len(),
        deltas == as_words(id_column(entries)),
    ensures
        id_sum(deltas, (i + 1) as nat) == entries[i].tile_id,
    decreases i,
{
    if i > 0 {
        lemma_id_sum_of_entries(entries, deltas, i - 1);
        assert(entries[i - 1].tile_id <= entries[i].tile_id);
    } else {
        assert(id_sum(deltas, 0) == 0);
    }
    assert(deltas[i] == entries[i].tile_id - id_before(entries, i));
    assert(id_sum(deltas, (i + 1) as nat) == id_sum(deltas, i as nat) + deltas[i]);
}

proof fn lemma_offset_of_entries(
    entries: Seq<Entry>,
    codes: Seq<u64>,
    lengths: Seq<u64>,
    i: int,
)
    requires
        offsets_fit(entries),
        0 <= i < entries.len(),
        lengths == as_words(length_column(entries)),
        codes == as_words(offset_column(entries)),
    ensures
        offset_at(codes, lengths, i) == entries[i].offset,
    decreases i,
{
    if contiguous(entries, i) {
        lemma_offset_of_entries(entries, codes, lengths, i - 1);
        assert(lengths[i - 1] == entries[i - 1].length as u64);
        assert(codes[i] == 0);
    } else {
        assert(entries[i].offset < u64::MAX);
        assert(codes[i] == entries[i].offset + 1);
    }
}

/// Columns of integers are written one integer after the other.
pub proof fn lemma_columns_are_written_piecewise(a: Seq<nat>, b: Seq<nat>, n: nat)
    ensures
        varints(a + b) == varints(a) + varints(b),
        varints(seq![n]) == varint(n),
        varints(Seq::empty()).len() == 0,
    decreases b.len(),
{
    assert(seq![n].drop_last() =~= Seq::<nat>::empty());
    assert(varints(Seq::<nat>::empty()) =~= Seq::<u8>::empty());
    assert(varints(seq![n]) =~= varint(n));
    if b.len() == 0 {
        assert(a + b =~= a);
        assert(varints(a) + Seq::<u8>::empty() =~= varints(a));
    } else {
        lemma_columns_are_written_piecewise(a, b.drop_last(), n);
        assert((a + b).drop_last() =~= a + b.drop_last());
        assert((a + b).last() == b.last());
        assert(varints(a + b) =~= varints(a) + varints(b));
    }
}

/// A directory is written as the number of its entries and then four columns: how
/// far each tile number lies behind the one before, the runs, the lengths, and the
/// offsets. An offset is zero where the data follow those of the entry before, and
/// else one more than it is.
pub proof fn lemma_directory_has_four_columns(entries: Seq<Entry>)
    requires
        sorted(entries),
    ensures
        directory_bytes(entries) == varint(entries.len()) + varints(id_column(entries)) + varints(
            run_column(entries),
        ) + varints(length_column(entries)) + varints(offset_column(entries)),
        id_column(entries).len() == entries.len(),
        run_column(entries).len() == entries.len(),
        length_column(entries).len() == entries.len(),
        offset_column(entries).len() == entries.len(),
        entries.len() > 0 ==> id_column(entries)[0] == entries[0].tile_id
            && offset_column(entries)[0] == entries[0].offset + 1,
        forall|i: int|
            0 < i < entries.len() ==> #[trigger] id_column(entries)[i] + entries[i - 1].tile_id
                == entries[i].tile_id,
        forall|i: int|
            0 <= i < entries.len() ==> #[trigger] run_column(entries)[i] == entries[i].run_length,
        forall|i: int|
            0 <= i < entries.len() ==> #[trigger] length_column(entries)[i] == entries[i].length,
        forall|i: int|
            0 < i < entries.len() ==> #[trigger] offset_column(entries)[i] == if entries[i].offset
                == entries[i - 1].offset + entries[i - 1].length {
                0
            } else {
                entries[i].offset + 1
            },
{
    assert forall|i: int| 0 < i < entries.len() implies #[trigger] id_column(entries)[i]
        + entries[i - 1].tile_id == entries[i].tile_id by {
        assert(entries[i - 1].tile_id <= entries[i].tile_id);
    }
}

/// A directory that claims more than ten million entries is refused for that.
pub proof fn lemma_implausible_directory_is_refused(bytes: Seq<u8>)
    ensures
        match varint_from(bytes, 0) {
            Ok((count, _)) => count > 10_000_000 ==> parse_directory(bytes) == Err::<
                Seq<Entry>,
                DirectoryError,
            >(DirectoryError::ImplausibleCount(count)),
            Err(e) => parse_directory(bytes) == Err::<Seq<Entry>, DirectoryError>(
                DirectoryError::Varint(e),
            ),
        },
        parse_directory(bytes) is Ok ==> parse_directory(bytes)->Ok_0.len() <= 10_000_000,
{
    if parse_directory(bytes) is Ok {
        let (count, used) = varint_from(bytes, 0)->Ok_0;
        lemma_column_len(bytes, used, count as nat);
    }
}

proof fn lemma_column_len(bytes: Seq<u8>, pos: nat, n: nat)
    ensures
        column_at(bytes, pos, n) is Ok ==> column_at(bytes, pos, n)->Ok_0.0.len() == n,
    decreases n,
{
    if n > 0 {
        lemma_column_len(bytes, pos, (n - 1) as nat);
    }
}

} // verus!
