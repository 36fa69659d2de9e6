//! Packing tiles: blobs are written once each, and neighbours with the same
//! blob share a directory entry.
use crate::digest::{digest_key, key_of_digest, same_digest, sha256, sha256_of};
use crate::pmtiles::archive::{last_at_most, run_ends_before};
use crate::pmtiles::directory::{low32, sorted, Entry};
use std::collections::HashMap;
use vstd::prelude::*;

verus! {

/// Where a blob stands in the tile data.
pub struct StoredBlob {
    pub hash: Seq<u8>,
    pub offset: u64,
    pub length: u32,
}

/// The packed form of a sequence of tiles.
pub struct Packed {
    /// The directory.
    pub entries: Seq<Entry>,
    /// The distinct blobs in the order in which they were first seen.
    pub blobs: Seq<StoredBlob>,
    /// The sum of the blobs' lengths as the directory states them.
    pub data_len: nat,
    /// The tile data section.
    pub data: Seq<u8>,
}

/// A tile number and the tile's stored form.
pub type NumberedTile = (u64, Seq<u8>);

/// The blob with a digest.
pub open spec fn find_blob(blobs: Seq<StoredBlob>, hash: Seq<u8>) -> Option<StoredBlob>
    decreases blobs.len(),
{
    if blobs.len() == 0 {
        None
    } else if blobs.last().hash == hash {
        Some(blobs.last())
    } else {
        find_blob(blobs.drop_last(), hash)
    }
}

/// A tile prolongs the run of the last entry: its number is the next one and
/// its blob is the same.
pub open spec fn prolongs(p: Packed, id: u64, known: Option<StoredBlob>) -> bool {
    p.entries.len() > 0 && {
        let last = p.entries.last();
        &&& last.tile_id + last.run_length == id
        &&& known is Some
        &&& known->0.offset == last.offset
        &&& known->0.length == last.length
    }
}

/// An entry with a run longer by one.
pub open spec fn prolonged(e: Entry) -> Entry {
    Entry { run_length: (e.run_length + 1) as u32, ..e }
}

/// One more tile.
pub open spec fn pack_one(p: Packed, tile: NumberedTile) -> Packed {
    let (id, blob) = tile;
    let known = find_blob(p.blobs, sha256_of(blob));
    if prolongs(p, id, known) {
        Packed {
            entries: p.entries.update(p.entries.len() - 1, prolonged(p.entries.last())),
            ..p
        }
    } else if known is Some {
        Packed {
            entries: p.entries.push(
                Entry {
                    tile_id: id,
                    offset: known->0.offset,
                    length: known->0.length,
                    run_length: 1,
                },
            ),
            ..p
        }
    } else {
        let offset = p.data_len as u64;
        let length = low32(blob.len() as u64);
        Packed {
            entries: p.entries.push(Entry { tile_id: id, offset, length, run_length: 1 }),
            blobs: p.blobs.push(StoredBlob { hash: sha256_of(blob), offset, length }),
            data_len: p.data_len + length as nat,
            data: p.data + blob,
        }
    }
}

/// Tiles packed in the order given.
pub open spec fn pack(tiles: Seq<NumberedTile>) -> Packed
    decreases tiles.len(),
{
    if tiles.len() == 0 {
        Packed { entries: Seq::empty(), blobs: Seq::empty(), data_len: 0, data: Seq::empty() }
    } else {
        pack_one(pack(tiles.drop_last()), tiles.last())
    }
}

/// A tile can be added: it does not come before the last one, and no counter
/// overflows.
pub open spec fn accepts(p: Packed, id: u64, blob_len: nat) -> bool {
    &&& p.data_len + low32(blob_len as u64) < u64::MAX
    &&& p.entries.len() > 0 ==> {
        &&& p.entries.last().tile_id <= id
        &&& p.entries.last().run_length < u32::MAX
        &&& p.entries.last().tile_id + p.entries.last().run_length <= u64::MAX
    }
}

/// Each of the tiles could be added in its turn.
pub open spec fn acceptable(tiles: Seq<NumberedTile>) -> bool
    decreases tiles.len(),
{
    tiles.len() > 0 ==> {
        &&& acceptable(tiles.drop_last())
        &&& accepts(pack(tiles.drop_last()), tiles.last().0, tiles.last().1.len())
    }
}

/// A directory whose entries lie within the data and are tiles, in order.
pub open spec fn sound(p: Packed) -> bool {
    &&& sorted(p.entries)
    &&& p.data_len < u64::MAX
    &&& forall|k: int|
        0 <= k < p.entries.len() ==> (#[trigger] p.entries[k]).run_length > 0
            && p.entries[k].offset + p.entries[k].length <= p.data_len
    &&& forall|k: int|
        0 <= k < p.blobs.len() ==> (#[trigger] p.blobs[k]).offset + p.blobs[k].length <= p.data_len
    &&& p.entries.len() >= p.blobs.len()
}

/// Packing keeps the directory in order and within the data.
pub proof fn lemma_pack_is_sound(tiles: Seq<NumberedTile>)
    requires
        acceptable(tiles),
    ensures
        sound(pack(tiles)),
        pack(tiles).entries.len() <= tiles.len(),
    decreases tiles.len(),
{
    if tiles.len() > 0 {
        let p = pack(tiles.drop_last());
        let q = pack(tiles);
        let (id, blob) = tiles.last();
        lemma_pack_is_sound(tiles.drop_last());
        let known = find_blob(p.blobs, sha256_of(blob));
        if known is Some {
            lemma_found_blob(p.blobs, sha256_of(blob));
        }
        let n = p.entries.len() as int;
        if prolongs(p, id, known) {
            assert forall|k: int| 0 <= k < q.entries.len() implies (
            #[trigger] q.entries[k]).run_length > 0 && q.entries[k].offset + q.entries[k].length
                <= q.data_len && q.entries[k].tile_id == p.entries[k].tile_id by {
                assert(p.entries[k].run_length > 0);
            }
        } else {
            assert forall|k: int| 0 <= k < q.entries.len() implies (
            #[trigger] q.entries[k]).run_length > 0 && q.entries[k].offset + q.entries[k].length
                <= q.data_len by {
                if k < n {
                    assert(q.entries[k] == p.entries[k]);
                }
            }
            assert forall|i: int, j: int| 0 <= i <= j < q.entries.len() implies (
            #[trigger] q.entries[i]).tile_id <= (#[trigger] q.entries[j]).tile_id by {
                if j == n && i < n {
                    assert(p.entries[i].tile_id <= p.entries[n - 1].tile_id);
                }
            }
            assert forall|k: int| 0 <= k < q.blobs.len() implies (#[trigger] q.blobs[k]).offset
                + q.blobs[k].length <= q.data_len by {
                if k < p.blobs.len() {
                    assert(q.blobs[k] == p.blobs[k]);
                }
            }
        }
    }
}

proof fn lemma_found_blob(blobs: Seq<StoredBlob>, hash: Seq<u8>)
    requires
        find_blob(blobs, hash) is Some,
    ensures
        exists|k: int|
            0 <= k < blobs.len() && #[trigger] blobs[k] == find_blob(blobs, hash)->0
                && blobs[k].hash == hash,
    decreases blobs.len(),
{
    if blobs.last().hash == hash {
        assert(blobs[blobs.len() - 1] == blobs.last());
    } else {
        lemma_found_blob(blobs.drop_last(), hash);
        let k = choose|k: int|
            0 <= k < blobs.drop_last().len() && #[trigger] blobs.drop_last()[k] == find_blob(
                blobs.drop_last(),
                hash,
            )->0 && blobs.drop_last()[k].hash == hash;
        assert(blobs[k] == blobs.drop_last()[k]);
    }
}

/// The tiles stand in strictly ascending order of their numbers.
pub open spec fn ascending(tiles: Seq<NumberedTile>) -> bool {
    forall|i: int, j: int|
        0 <= i < j < tiles.len() ==> (#[trigger] tiles[i]).0 < (#[trigger] tiles[j]).0
}

/// No two different tiles have the same digest.
pub open spec fn no_collisions(tiles: Seq<NumberedTile>) -> bool {
    forall|i: int, j: int|
        0 <= i < tiles.len() && 0 <= j < tiles.len() && sha256_of((#[trigger] tiles[i]).1)
            == sha256_of((#[trigger] tiles[j]).1) ==> tiles[i].1 == tiles[j].1
}

/// Every tile's length can be stated in a directory.
pub open spec fn statable(tiles: Seq<NumberedTile>) -> bool {
    forall|i: int| 0 <= i < tiles.len() ==> (#[trigger] tiles[i]).1.len() <= u32::MAX
}

/// The bytes at a place of the data.
pub open spec fn data_at(data: Seq<u8>, offset: u64, length: u32) -> Seq<u8> {
    data.subrange(offset as int, offset + length)
}

/// Entry `k` stands for a tile number.
pub open spec fn covers(p: Packed, k: int, id: u64) -> bool {
    0 <= k < p.entries.len() && p.entries[k].tile_id <= id < p.entries[k].tile_id
        + p.entries[k].run_length
}

/// The blob of entry `k`.
pub open spec fn entry_data(p: Packed, k: int) -> Seq<u8> {
    data_at(p.data, p.entries[k].offset, p.entries[k].length)
}

/// Some entry stands for a tile number, with the tile's bytes.
pub open spec fn holds(p: Packed, id: u64, blob: Seq<u8>) -> bool {
    exists|k: int| #[trigger] covers(p, k, id) && entry_data(p, k) == blob
}

/// Some tile has a number.
pub open spec fn numbered(tiles: Seq<NumberedTile>, id: u64) -> bool {
    exists|i: int| 0 <= i < tiles.len() && (#[trigger] tiles[i]).0 == id
}

/// Every tile is stood for by an entry with its blob, and no entry stands for
/// anything else.
pub open spec fn holds_exactly(p: Packed, tiles: Seq<NumberedTile>) -> bool {
    &&& forall|i: int|
        0 <= i < tiles.len() ==> holds(p, (#[trigger] tiles[i]).0, tiles[i].1)
    &&& forall|k: int, id: u64| #[trigger] covers(p, k, id) ==> numbered(tiles, id)
}

/// Runs do not overlap.
pub open spec fn disjoint_runs(p: Packed) -> bool {
    forall|k: int, l: int|
        0 <= k < l < p.entries.len() ==> (#[trigger] p.entries[k]).tile_id
            + p.entries[k].run_length <= (#[trigger] p.entries[l]).tile_id
}

/// Every blob in the index is that of some tile.
pub open spec fn blobs_known(p: Packed, tiles: Seq<NumberedTile>) -> bool {
    forall|k: int|
        0 <= k < p.blobs.len() ==> exists|j: int|
            0 <= j < tiles.len() && sha256_of((#[trigger] tiles[j]).1) == (
            #[trigger] p.blobs[k]).hash && data_at(p.data, p.blobs[k].offset, p.blobs[k].length)
                == tiles[j].1
}

/// Packing keeps every tile and adds none: each tile's number leads to an entry
/// whose bytes are the tile's, and no other number leads anywhere.
#[verifier::spinoff_prover]
pub proof fn lemma_pack_holds_exactly(tiles: Seq<NumberedTile>)
    requires
        acceptable(tiles),
        ascending(tiles),
        no_collisions(tiles),
        statable(tiles),
    ensures
        holds_exactly(pack(tiles), tiles),
        disjoint_runs(pack(tiles)),
        blobs_known(pack(tiles), tiles),
        sound(pack(tiles)),
        pack(tiles).data_len == pack(tiles).data.len(),
        tiles.len() > 0 ==> pack(tiles).entries.len() > 0 && pack(tiles).entries.last().tile_id
            + pack(tiles).entries.last().run_length == tiles.last().0 + 1,
    decreases tiles.len(),
{
    lemma_pack_is_sound(tiles);
    if tiles.len() > 0 {
        let before = tiles.drop_last();
        assert(ascending(before)) by {
            assert forall|i: int, j: int| 0 <= i < j < before.len() implies (
            #[trigger] before[i]).0 < (#[trigger] before[j]).0 by {
                assert(tiles[i].0 < tiles[j].0);
            }
        }
        assert(no_collisions(before)) by {
            assert forall|i: int, j: int|
                0 <= i < before.len() && 0 <= j < before.len() && sha256_of(
                    (#[trigger] before[i]).1,
                ) == sha256_of((#[trigger] before[j]).1) implies before[i].1 == before[j].1 by {
                assert(tiles[i] == before[i] && tiles[j] == before[j]);
            }
        }
        assert(statable(before)) by {
            assert forall|i: int| 0 <= i < before.len() implies (#[trigger] before[i]).1.len()
                <= u32::MAX by {
                assert(tiles[i] == before[i]);
            }
        }
        lemma_pack_holds_exactly(before);
        let p = pack(before);
        let tile = tiles.last();
        let m = tiles.len() - 1;
        assert(before.push(tile) =~= tiles);
        assert(ends_before(p, tile.0)) by {
            if tiles.len() > 1 {
                assert(tiles[m - 1].0 < tiles[m].0);
                assert(before.last() == tiles[m - 1]);
            } else {
                assert(before =~= Seq::<NumberedTile>::empty());
            }
        }
        assert(tiles[m] == tile);
        lemma_grows(p, before, tile);
        lemma_grows_exactly(p, pack(tiles), before, tile);
        assert(pack(tiles).entries.last().tile_id + pack(tiles).entries.last().run_length == tile.0
            + 1) by {
            reveal(grows);
        }
    }
}

/// One more tile leaves the other entries as they are, but for the length of
/// the last run, and the last entry then stands for the new tile.
#[verifier::opaque]
spec fn grows(p: Packed, q: Packed, id: u64, blob: Seq<u8>) -> bool {
    let n = p.entries.len() as int;
    let top = q.entries.len() - 1;
    &&& top == n || top == n - 1
    &&& top >= 0
    &&& covers(q, top, id)
    &&& entry_data(q, top) == blob
    &&& q.entries[top].tile_id + q.entries[top].run_length == id + 1
    &&& forall|k: int|
        0 <= k < n ==> q.entries[k].tile_id == (#[trigger] p.entries[k]).tile_id && entry_data(q, k)
            == entry_data(p, k)
    &&& forall|k: int|
        0 <= k < n && k < top ==> q.entries[k].run_length == (#[trigger] p.entries[k]).run_length
    &&& top == n - 1 ==> q.entries[top].run_length == p.entries[top].run_length + 1
    &&& top == n ==> q.entries[top].tile_id == id && q.entries[top].run_length == 1
}

spec fn ends_before(p: Packed, id: u64) -> bool {
    p.entries.len() > 0 ==> p.entries.last().tile_id + p.entries.last().run_length <= id
}

#[verifier::spinoff_prover]
proof fn lemma_grows(p: Packed, before: Seq<NumberedTile>, tile: NumberedTile)
    requires
        sound(p),
        blobs_known(p, before),
        p.data_len == p.data.len(),
        accepts(p, tile.0, tile.1.len()),
        tile.1.len() <= u32::MAX,
        no_collisions(before.push(tile)),
    ensures
        grows(p, pack_one(p, tile), tile.0, tile.1),
        blobs_known(pack_one(p, tile), before.push(tile)),
        pack_one(p, tile).data_len == pack_one(p, tile).data.len(),
{
    reveal(grows);
    let (id, blob) = tile;
    let q = pack_one(p, tile);
    let tiles = before.push(tile);
    let m = before.len() as int;
    assert(tiles[m] == tile);
    let hash = sha256_of(blob);
    let known = find_blob(p.blobs, hash);
    if known is Some {
        lemma_found_blob(p.blobs, hash);
        let k = choose|k: int|
            0 <= k < p.blobs.len() && #[trigger] p.blobs[k] == known->0 && p.blobs[k].hash == hash;
        let j = choose|j: int|
            0 <= j < before.len() && sha256_of((#[trigger] before[j]).1) == p.blobs[k].hash
                && data_at(p.data, p.blobs[k].offset, p.blobs[k].length) == before[j].1;
        assert(tiles[j] == before[j]);
        assert(data_at(p.data, known->0.offset, known->0.length) == blob);
        assert(q.data == p.data);
    } else {
        assert(data_at(q.data, p.data_len as u64, blob.len() as u32) =~= blob);
        assert forall|k: int| 0 <= k < p.entries.len() implies entry_data(q, k)
            == #[trigger] entry_data(p, k) by {
            assert(p.entries[k].offset + p.entries[k].length <= p.data_len);
            assert(q.entries[k] == p.entries[k]);
            assert(entry_data(q, k) =~= entry_data(p, k));
        }
    }
    assert forall|k: int| 0 <= k < q.blobs.len() implies exists|j: int|
        0 <= j < tiles.len() && sha256_of((#[trigger] tiles[j]).1) == (#[trigger] q.blobs[k]).hash
            && data_at(q.data, q.blobs[k].offset, q.blobs[k].length) == tiles[j].1 by {
        if k < p.blobs.len() {
            assert(q.blobs[k] == p.blobs[k]);
            let j = choose|j: int|
                0 <= j < before.len() && sha256_of((#[trigger] before[j]).1) == p.blobs[k].hash
                    && data_at(p.data, p.blobs[k].offset, p.blobs[k].length) == before[j].1;
            assert(tiles[j] == before[j]);
            assert(data_at(q.data, q.blobs[k].offset, q.blobs[k].length) =~= data_at(
                p.data,
                p.blobs[k].offset,
                p.blobs[k].length,
            ));
        } else {
            assert(sha256_of(tiles[m].1) == q.blobs[k].hash);
        }
    }
}

#[verifier::spinoff_prover]
proof fn lemma_grows_exactly(p: Packed, q: Packed, before: Seq<NumberedTile>, tile: NumberedTile)
    requires
        grows(p, q, tile.0, tile.1),
        holds_exactly(p, before),
        disjoint_runs(p),
        ends_before(p, tile.0),
    ensures
        holds_exactly(q, before.push(tile)),
        disjoint_runs(q),
{
    reveal(grows);
    let (id, blob) = tile;
    let tiles = before.push(tile);
    let m = before.len() as int;
    let n = p.entries.len() as int;
    let top = q.entries.len() - 1;
    assert(tiles[m] == tile);
    assert forall|i: int| 0 <= i < tiles.len() implies holds(
        q,
        (#[trigger] tiles[i]).0,
        tiles[i].1,
    ) by {
        if i < m {
            assert(holds(p, before[i].0, before[i].1));
            assert(before[i] == tiles[i]);
            let k = choose|k: int| #[trigger]
                covers(p, k, before[i].0) && entry_data(p, k) == before[i].1;
            assert(q.entries[k].tile_id == p.entries[k].tile_id);
            assert(covers(q, k, tiles[i].0) && entry_data(q, k) == tiles[i].1);
        } else {
            assert(covers(q, top, tiles[i].0) && entry_data(q, top) == tiles[i].1);
        }
    }
    assert forall|k: int, w: u64| #[trigger] covers(q, k, w) implies numbered(tiles, w) by {
        if k < n {
            assert(q.entries[k].tile_id == p.entries[k].tile_id);
        }
        if k < n && covers(p, k, w) {
            let i = choose|i: int| 0 <= i < before.len() && (#[trigger] before[i]).0 == w;
            assert(tiles[i].0 == w);
        } else {
            assert(k == top);
            assert(w == id);
            assert(tiles[m].0 == w);
        }
    }
    assert forall|k: int, l: int| 0 <= k < l < q.entries.len() implies (
    #[trigger] q.entries[k]).tile_id + q.entries[k].run_length <= (
    #[trigger] q.entries[l]).tile_id by {
        assert(q.entries[k].tile_id == p.entries[k].tile_id);
        assert(q.entries[k].run_length == p.entries[k].run_length);
        if l < n {
            assert(q.entries[l].tile_id == p.entries[l].tile_id);
            assert(p.entries[k].tile_id + p.entries[k].run_length <= p.entries[l].tile_id);
        } else if k < n - 1 {
            assert(p.entries[k].tile_id + p.entries[k].run_length <= p.entries[n - 1].tile_id);
        }
    }
}

/// Where the data that some entries point to ends.
pub open spec fn written_end(entries: Seq<Entry>) -> int
    decreases entries.len(),
{
    if entries.len() == 0 {
        0
    } else {
        let before = written_end(entries.drop_last());
        let end = entries.last().offset + entries.last().length;
        if end > before {
            end
        } else {
            before
        }
    }
}

/// An entry's data either follows all data before it or lies within it.
pub open spec fn follows_or_repeats(entries: Seq<Entry>, k: int) -> bool {
    let end = written_end(entries.take(k));
    entries[k].offset == end || entries[k].offset + entries[k].length <= end
}

/// The archive is clustered: going through the directory in order, the data of
/// each entry either follows directly behind all data before it, or is data
/// that an earlier entry points to already.
#[verifier::spinoff_prover]
pub proof fn lemma_pack_is_clustered(tiles: Seq<NumberedTile>)
    requires
        acceptable(tiles),
    ensures
        written_end(pack(tiles).entries) == pack(tiles).data_len,
        forall|k: int|
            0 <= k < pack(tiles).entries.len() ==> #[trigger] follows_or_repeats(
                pack(tiles).entries,
                k,
            ),
    decreases tiles.len(),
{
    if tiles.len() > 0 {
        let p = pack(tiles.drop_last());
        let q = pack(tiles);
        let (id, blob) = tiles.last();
        lemma_pack_is_clustered(tiles.drop_last());
        lemma_pack_is_sound(tiles.drop_last());
        let known = find_blob(p.blobs, sha256_of(blob));
        if known is Some {
            lemma_found_blob(p.blobs, sha256_of(blob));
        }
        let n = p.entries.len() as int;
        if prolongs(p, id, known) {
            assert(q.entries.drop_last() =~= p.entries.drop_last());
            assert forall|k: int| 0 <= k < q.entries.len() implies #[trigger] follows_or_repeats(
                q.entries,
                k,
            ) by {
                assert(follows_or_repeats(p.entries, k));
                assert(q.entries.take(k) =~= p.entries.take(k));
            }
        } else {
            assert(q.entries.drop_last() =~= p.entries);
            assert forall|k: int| 0 <= k < q.entries.len() implies #[trigger] follows_or_repeats(
                q.entries,
                k,
            ) by {
                if k < n {
                    assert(follows_or_repeats(p.entries, k));
                    assert(q.entries.take(k) =~= p.entries.take(k));
                } else {
                    assert(q.entries.take(k) =~= p.entries);
                }
            }
        }
    }
}

/// The run of entry `k` ends where that of the next one begins, with the same blob.
pub open spec fn could_be_one(entries: Seq<Entry>, k: int) -> bool {
    &&& entries[k].tile_id + entries[k].run_length == entries[k + 1].tile_id
    &&& entries[k].offset == entries[k + 1].offset
    &&& entries[k].length == entries[k + 1].length
}

/// Only the empty blob takes no room.
spec fn empty_is_known(p: Packed) -> bool {
    &&& forall|k: int|
        0 <= k < p.blobs.len() && (#[trigger] p.blobs[k]).length == 0 ==> p.blobs[k].hash
            == sha256_of(Seq::empty())
    &&& forall|k: int|
        0 <= k < p.entries.len() && (#[trigger] p.entries[k]).length == 0 ==> has_digest(
            p.blobs,
            sha256_of(Seq::empty()),
        )
}

proof fn lemma_empty_is_known(tiles: Seq<NumberedTile>)
    requires
        statable(tiles),
    ensures
        empty_is_known(pack(tiles)),
    decreases tiles.len(),
{
    if tiles.len() > 0 {
        let before = tiles.drop_last();
        let p = pack(before);
        let q = pack(tiles);
        let (id, blob) = tiles.last();
        let none = sha256_of(Seq::empty());
        assert forall|i: int| 0 <= i < before.len() implies (#[trigger] before[i]).1.len()
            <= u32::MAX by {
            assert(tiles[i] == before[i]);
        }
        assert(tiles[tiles.len() - 1].1.len() <= u32::MAX);
        lemma_empty_is_known(before);
        if has_digest(p.blobs, none) {
            let k = choose|k: int| 0 <= k < p.blobs.len() && (#[trigger] p.blobs[k]).hash == none;
            assert(q.blobs[k].hash == none);
            assert(has_digest(q.blobs, none));
        }
        let known = find_blob(p.blobs, sha256_of(blob));
        if known is Some {
            lemma_found_blob(p.blobs, sha256_of(blob));
            let j = choose|j: int|
                0 <= j < p.blobs.len() && #[trigger] p.blobs[j] == known->0 && p.blobs[j].hash
                    == sha256_of(blob);
            assert(p.blobs[j].length == 0 ==> p.blobs[j].hash == none);
        } else {
            let n = p.blobs.len() as int;
            assert(q.blobs[n].hash == sha256_of(blob));
            if low32(blob.len() as u64) == 0 {
                assert(blob =~= Seq::<u8>::empty());
                assert(q.blobs[n].hash == none);
            }
        }
        assert forall|k: int| 0 <= k < q.blobs.len() && (#[trigger] q.blobs[k]).length
            == 0 implies q.blobs[k].hash == none by {
            if k < p.blobs.len() {
                assert(q.blobs[k] == p.blobs[k]);
            }
        }
        assert forall|k: int| 0 <= k < q.entries.len() && (#[trigger] q.entries[k]).length
            == 0 implies has_digest(q.blobs, none) by {
            if k < p.entries.len() {
                assert(p.entries[k].length == q.entries[k].length);
            }
        }
    }
}

/// Runs are as long as can be: no two neighbouring entries could be one.
pub proof fn lemma_runs_are_maximal(tiles: Seq<NumberedTile>)
    requires
        acceptable(tiles),
        statable(tiles),
    ensures
        forall|k: int|
            0 <= k < pack(tiles).entries.len() - 1 ==> !#[trigger] could_be_one(
                pack(tiles).entries,
                k,
            ),
    decreases tiles.len(),
{
    if tiles.len() > 0 {
        let before = tiles.drop_last();
        let p = pack(before);
        let q = pack(tiles);
        let (id, blob) = tiles.last();
        let hash = sha256_of(blob);
        assert forall|i: int| 0 <= i < before.len() implies (#[trigger] before[i]).1.len()
            <= u32::MAX by {
            assert(tiles[i] == before[i]);
        }
        assert(tiles[tiles.len() - 1].1.len() <= u32::MAX);
        lemma_runs_are_maximal(before);
        lemma_pack_is_sound(before);
        lemma_empty_is_known(before);
        let known = find_blob(p.blobs, hash);
        let n = p.entries.len() as int;
        assert forall|k: int| 0 <= k < q.entries.len() - 1 implies !#[trigger] could_be_one(
            q.entries,
            k,
        ) by {
            if k < n - 1 {
                assert(!could_be_one(p.entries, k));
                assert(q.entries[k] == p.entries[k]);
                assert(q.entries[k + 1].tile_id == p.entries[k + 1].tile_id);
            } else {
                let last = p.entries[n - 1];
                assert(q.entries[k] == last);
                if known is None && could_be_one(q.entries, k) {
                    assert(last.offset + last.length <= p.data_len);
                    assert(last.length == 0);
                    assert(blob =~= Seq::<u8>::empty());
                    lemma_none_found(p.blobs, hash);
                    let j = choose|j: int|
                        0 <= j < p.blobs.len() && (#[trigger] p.blobs[j]).hash == hash;
                    assert(false);
                }
            }
        }
    }
}

/// A blob with a digest has been written.
pub open spec fn has_digest(blobs: Seq<StoredBlob>, hash: Seq<u8>) -> bool {
    exists|k: int| 0 <= k < blobs.len() && (#[trigger] blobs[k]).hash == hash
}

/// Every distinct blob is written exactly once: no digest is stored twice, and
/// the stored digests are those of the tiles.
pub proof fn lemma_blobs_are_distinct(tiles: Seq<NumberedTile>)
    ensures
        forall|a: int, b: int|
            0 <= a < b < pack(tiles).blobs.len() ==> (#[trigger] pack(tiles).blobs[a]).hash != (
            #[trigger] pack(tiles).blobs[b]).hash,
        forall|i: int|
            0 <= i < tiles.len() ==> has_digest(
                pack(tiles).blobs,
                sha256_of((#[trigger] tiles[i]).1),
            ),
    decreases tiles.len(),
{
    if tiles.len() > 0 {
        let before = tiles.drop_last();
        let p = pack(before);
        let q = pack(tiles);
        let (id, blob) = tiles.last();
        let hash = sha256_of(blob);
        let m = tiles.len() - 1;
        lemma_blobs_are_distinct(before);
        let known = find_blob(p.blobs, hash);
        if known is Some {
            lemma_found_blob(p.blobs, hash);
            assert(q.blobs == p.blobs);
            assert(has_digest(q.blobs, hash));
        } else {
            lemma_none_found(p.blobs, hash);
            assert(q.blobs[p.blobs.len() as int].hash == hash);
        }
        assert forall|i: int| 0 <= i < tiles.len() implies has_digest(
            q.blobs,
            sha256_of((#[trigger] tiles[i]).1),
        ) by {
            if i < m {
                assert(tiles[i] == before[i]);
                assert(has_digest(p.blobs, sha256_of(before[i].1)));
                let k = choose|k: int|
                    0 <= k < p.blobs.len() && (#[trigger] p.blobs[k]).hash == sha256_of(
                        before[i].1,
                    );
                assert(q.blobs[k] == p.blobs[k]);
            } else {
                assert(tiles[i] == tiles.last());
            }
        }
        assert forall|a: int, b: int| 0 <= a < b < q.blobs.len() implies (
        #[trigger] q.blobs[a]).hash != (#[trigger] q.blobs[b]).hash by {
            assert(q.blobs[a] == p.blobs[a]);
            if b < p.blobs.len() {
                assert(q.blobs[b] == p.blobs[b]);
            }
        }
    }
}

/// The entry that stands for a number is the last one that starts at or before
/// it.
pub proof fn lemma_covering_entry_is_found(p: Packed, k: int, id: u64)
    requires
        disjoint_runs(p),
        sorted(p.entries),
        covers(p, k, id),
        id < u64::MAX,
    ensures
        last_at_most(p.entries, id) == Some(p.entries[k]),
        !run_ends_before(p.entries[k], id),
{
    assert forall|l: int| k < l < p.entries.len() implies (#[trigger] p.entries[l]).tile_id
        > id by {
        assert(p.entries[k].tile_id + p.entries[k].run_length <= p.entries[l].tile_id);
    }
    lemma_last_at_most(p.entries, k, id);
}

/// The last entry at or before a number is the one behind which all start later.
pub proof fn lemma_last_at_most(entries: Seq<Entry>, k: int, id: u64)
    requires
        0 <= k < entries.len(),
        entries[k].tile_id <= id,
        forall|l: int| k < l < entries.len() ==> (#[trigger] entries[l]).tile_id > id,
    ensures
        last_at_most(entries, id) == Some(entries[k]),
    decreases entries.len(),
{
    let n = entries.len() - 1;
    assert(entries.last() == entries[n]);
    if k < n {
        let front = entries.drop_last();
        assert forall|l: int| k < l < front.len() implies (#[trigger] front[l]).tile_id > id by {
            assert(front[l] == entries[l]);
        }
        assert(front[k] == entries[k]);
        lemma_last_at_most(front, k, id);
    }
}

/// A number that no entry stands for leads to no entry, or to one whose run
/// ends before it.
pub proof fn lemma_uncovered_number(p: Packed, id: u64)
    requires
        sound(p),
        forall|k: int| !(#[trigger] covers(p, k, id)),
    ensures
        match last_at_most(p.entries, id) {
            None => true,
            Some(entry) => entry.run_length > 0 && run_ends_before(entry, id),
        },
{
    if last_at_most(p.entries, id) is Some {
        lemma_last_at_most_is_entry(p.entries, id);
        let k = choose|k: int|
            0 <= k < p.entries.len() && #[trigger] p.entries[k] == last_at_most(p.entries, id)->0
                && p.entries[k].tile_id <= id;
        assert(!covers(p, k, id));
    }
}

/// The last entry at or before a number is one of the entries.
pub proof fn lemma_last_at_most_is_entry(entries: Seq<Entry>, id: u64)
    requires
        last_at_most(entries, id) is Some,
    ensures
        exists|k: int|
            0 <= k < entries.len() && #[trigger] entries[k] == last_at_most(entries, id)->0
                && entries[k].tile_id <= id,
    decreases entries.len(),
{
    if entries.last().tile_id <= id {
        assert(entries[entries.len() - 1] == entries.last());
    } else {
        let front = entries.drop_last();
        lemma_last_at_most_is_entry(front, id);
        let k = choose|k: int|
            0 <= k < front.len() && #[trigger] front[k] == last_at_most(front, id)->0
                && front[k].tile_id <= id;
        assert(entries[k] == front[k]);
    }
}

/// A blob that has been written: its digest and its place.
#[derive(Debug, Clone, Copy)]
struct BlobRef {
    hash: [u8; 32],
    offset: u64,
    length: u32,
}

impl BlobRef {
    spec fn model(self) -> StoredBlob {
        StoredBlob { hash: self.hash@, offset: self.offset, length: self.length }
    }
}

/// The blobs written so far, found by their digests.
struct BlobIndex {
    buckets: HashMap<u64, Vec<usize>>,
    blobs: Vec<BlobRef>,
}

spec fn in_bucket(buckets: Map<u64, Vec<usize>>, key: u64, i: int) -> bool {
    buckets.contains_key(key) && buckets[key]@.contains(i as usize)
}

impl BlobIndex {
    /// Every blob is in the bucket of its digest, buckets hold nothing else,
    /// and no digest occurs twice.
    closed spec fn wf(&self) -> bool {
        &&& forall|i: int|
            0 <= i < self.blobs@.len() ==> in_bucket(
                self.buckets@,
                digest_key((#[trigger] self.blobs@[i]).hash@),
                i,
            )
        &&& forall|key: u64, j: int|
            self.buckets@.contains_key(key) && 0 <= j < self.buckets@[key]@.len() ==> (
            #[trigger] self.buckets@[key]@[j]) < self.blobs@.len()
        &&& forall|i: int, j: int|
            0 <= i < j < self.blobs@.len() ==> (#[trigger] self.blobs@[i]).hash@ != (
            #[trigger] self.blobs@[j]).hash@
    }

    closed spec fn model(&self) -> Seq<StoredBlob> {
        Seq::new(self.blobs@.len(), |i: int| self.blobs@[i].model())
    }

    fn new() -> (index: BlobIndex)
        ensures
            index.wf(),
            index.model() == Seq::<StoredBlob>::empty(),
    {
        broadcast use vstd::std_specs::hash::group_hash_axioms;

        let index = BlobIndex { buckets: HashMap::new(), blobs: Vec::new() };
        assert(index.model() =~= Seq::<StoredBlob>::empty());
        index
    }

    fn len(&self) -> (n: usize)
        ensures
            n == self.model().len(),
    {
        self.blobs.len()
    }

    fn find(&self, hash: &[u8; 32]) -> (found: Option<(u64, u32)>)
        requires
            self.wf(),
        ensures
            match find_blob(self.model(), hash@) {
                Some(blob) => found == Some((blob.offset, blob.length)),
                None => found is None,
            },
    {
        broadcast use vstd::std_specs::hash::group_hash_axioms;

        let key: u64 = key_of_digest(hash);
        match self.buckets.get(&key) {
            None => {
                proof {
                    assert forall|i: int| 0 <= i < self.model().len() implies (
                    #[trigger] self.model()[i]).hash != hash@ by {
                        assert(in_bucket(
                            self.buckets@,
                            digest_key(self.blobs@[i].hash@),
                            i,
                        ));
                    }
                    lemma_no_blob(self.model(), hash@);
                }
                None
            },
            Some(bucket) => {
                for j in 0..bucket.len()
                    invariant
                        self.wf(),
                        self.buckets@.contains_key(key),
                        self.buckets@[key] == bucket,
                        forall|k: int|
                            0 <= k < j ==> self.blobs@[(#[trigger] bucket@[k]) as int].hash@
                                != hash@,
                {
                    assert(self.buckets@[key]@[j as int] < self.blobs@.len());
                    let i: usize = bucket[j];
                    if same_digest(&self.blobs[i].hash, hash) {
                        proof {
                            lemma_the_blob(self.model(), i as int, hash@);
                        }
                        return Some((self.blobs[i].offset, self.blobs[i].length));
                    }
                }
                proof {
                    assert(self.blobs.len() <= usize::MAX);
                    assert forall|i: int| 0 <= i < self.model().len() implies (
                    #[trigger] self.model()[i]).hash != hash@ by {
                        assert(in_bucket(
                            self.buckets@,
                            digest_key(self.blobs@[i].hash@),
                            i,
                        ));
                        if self.blobs@[i].hash@ == hash@ {
                            let k = choose|k: int|
                                0 <= k < bucket@.len() && bucket@[k] == i as usize;
                            assert(self.blobs@[bucket@[k] as int].hash@ != hash@);
                        }
                    }
                    lemma_no_blob(self.model(), hash@);
                }
                None
            },
        }
    }

    fn insert(&mut self, hash: [u8; 32], offset: u64, length: u32)
        requires
            old(self).wf(),
            find_blob(old(self).model(), hash@) is None,
        ensures
            final(self).wf(),
            final(self).model() == old(self).model().push(
                StoredBlob { hash: hash@, offset, length },
            ),
    {
        broadcast use vstd::std_specs::hash::group_hash_axioms;

        let key: u64 = key_of_digest(&hash);
        let i: usize = self.blobs.len();
        let ghost before = *self;
        let mut bucket: Vec<usize> = match self.buckets.remove(&key) {
            Some(bucket) => bucket,
            None => Vec::new(),
        };
        let ghost had = bucket@;
        bucket.push(i);
        let ghost grown = bucket@;
        self.buckets.insert(key, bucket);
        self.blobs.push(BlobRef { hash, offset, length });
        proof {
            let after = *self;
            assert(after.model() =~= before.model().push(
                StoredBlob { hash: hash@, offset, length },
            ));
            assert(after.buckets@[key]@ == grown);
            assert forall|k: int| 0 <= k < after.blobs@.len() implies in_bucket(
                after.buckets@,
                digest_key((#[trigger] after.blobs@[k]).hash@),
                k,
            ) by {
                let dk = digest_key(after.blobs@[k].hash@);
                if k < i {
                    assert(after.blobs@[k] == before.blobs@[k]);
                    assert(in_bucket(before.buckets@, dk, k));
                    if dk == key {
                        let a = choose|a: int| 0 <= a < had.len() && had[a] == k as usize;
                        assert(grown[a] == k as usize);
                    }
                } else {
                    assert(grown[grown.len() - 1] == i);
                }
            }
            assert forall|q: u64, j: int|
                after.buckets@.contains_key(q) && 0 <= j < after.buckets@[q]@.len() implies (
            #[trigger] after.buckets@[q]@[j]) < after.blobs@.len() by {
                if q == key {
                    if j < had.len() {
                        assert(grown[j] == had[j]);
                        assert(before.buckets@[q]@[j] < before.blobs@.len());
                    }
                } else {
                    assert(before.buckets@[q]@[j] < before.blobs@.len());
                }
            }
            lemma_none_found(before.model(), hash@);
            assert forall|a: int, b: int| 0 <= a < b < after.blobs@.len() implies (
            #[trigger] after.blobs@[a]).hash@ != (#[trigger] after.blobs@[b]).hash@ by {
                assert(after.blobs@[a] == before.blobs@[a]);
                assert(before.model()[a].hash == before.blobs@[a].hash@);
                if b < i {
                    assert(after.blobs@[b] == before.blobs@[b]);
                }
            }
        }
    }
}

proof fn lemma_no_blob(blobs: Seq<StoredBlob>, hash: Seq<u8>)
    requires
        forall|i: int| 0 <= i < blobs.len() ==> (#[trigger] blobs[i]).hash != hash,
    ensures
        find_blob(blobs, hash) is None,
    decreases blobs.len(),
{
    if blobs.len() > 0 {
        assert(blobs.last() == blobs[blobs.len() - 1]);
        assert forall|i: int| 0 <= i < blobs.drop_last().len() implies (
        #[trigger] blobs.drop_last()[i]).hash != hash by {
            assert(blobs.drop_last()[i] == blobs[i]);
        }
        lemma_no_blob(blobs.drop_last(), hash);
    }
}

proof fn lemma_none_found(blobs: Seq<StoredBlob>, hash: Seq<u8>)
    requires
        find_blob(blobs, hash) is None,
    ensures
        forall|i: int| 0 <= i < blobs.len() ==> (#[trigger] blobs[i]).hash != hash,
    decreases blobs.len(),
{
    if blobs.len() > 0 {
        lemma_none_found(blobs.drop_last(), hash);
        assert forall|i: int| 0 <= i < blobs.len() implies (#[trigger] blobs[i]).hash != hash by {
            if i < blobs.len() - 1 {
                assert(blobs.drop_last()[i] == blobs[i]);
            }
        }
    }
}

proof fn lemma_the_blob(blobs: Seq<StoredBlob>, i: int, hash: Seq<u8>)
    requires
        0 <= i < blobs.len(),
        blobs[i].hash == hash,
        forall|a: int, b: int|
            0 <= a < b < blobs.len() ==> (#[trigger] blobs[a]).hash != (#[trigger] blobs[b]).hash,
    ensures
        find_blob(blobs, hash) == Some(blobs[i]),
    decreases blobs.len(),
{
    let n = blobs.len() - 1;
    assert(blobs.last() == blobs[n]);
    if i < n {
        let front = blobs.drop_last();
        assert(blobs[i].hash != blobs[n].hash);
        assert forall|a: int, b: int| 0 <= a < b < front.len() implies (#[trigger] front[a]).hash
            != (#[trigger] front[b]).hash by {
            assert(front[a] == blobs[a] && front[b] == blobs[b]);
        }
        assert(front[i] == blobs[i]);
        lemma_the_blob(front, i, hash);
    }
}

/// Collects tiles into a directory and tile data. Tiles come in ascending order
/// of their numbers; the caller appends each returned blob to the data.
pub struct ArchiveBuilder {
    entries: Vec<Entry>,
    index: BlobIndex,
    addressed: u64,
    data_len: u64,
    tiles: Ghost<Seq<NumberedTile>>,
}

impl ArchiveBuilder {
    /// The tiles added so far.
    pub closed spec fn tiles(&self) -> Seq<NumberedTile> {
        self.tiles@
    }

    /// The builder holds the packed form of its tiles.
    pub closed spec fn wf(&self) -> bool {
        let p = pack(self.tiles@);
        &&& acceptable(self.tiles@)
        &&& self.index.wf()
        &&& self.index.model() == p.blobs
        &&& self.entries@ == p.entries
        &&& self.data_len == p.data_len
        &&& self.addressed == self.tiles@.len()
    }

    /// The tiles of a builder were acceptable, one after the other.
    pub proof fn lemma_wf_tiles(&self)
        requires
            self.wf(),
        ensures
            acceptable(self.tiles()),
            pack(self.tiles()).entries.len() <= u64::MAX,
    {
        assert(self.entries.len() <= usize::MAX);
    }

    /// A builder without tiles.
    pub fn new() -> (builder: ArchiveBuilder)
        ensures
            builder.wf(),
            builder.tiles() == Seq::<NumberedTile>::empty(),
    {
        ArchiveBuilder {
            entries: Vec::new(),
            index: BlobIndex::new(),
            addressed: 0,
            data_len: 0,
            tiles: Ghost(Seq::empty()),
        }
    }

    /// Whether a tile with a stored form of `blob_len` bytes can come next.
    pub fn can_add(&self, id: u64, blob_len: usize) -> (can: bool)
        requires
            self.wf(),
        ensures
            can == (accepts(pack(self.tiles()), id, blob_len as nat) && self.tiles().len()
                < u64::MAX),
    {
        let length: u64 = blob_len as u64 % 0x1_0000_0000;
        if self.addressed == u64::MAX || self.data_len >= u64::MAX - length {
            return false;
        }
        if self.entries.len() == 0 {
            return true;
        }
        let last: Entry = self.entries[self.entries.len() - 1];
        last.tile_id <= id && last.run_length < u32::MAX && last.tile_id <= u64::MAX
            - last.run_length as u64
    }

    /// Add a tile in its stored form. Returns the blob if it is a new one, to be
    /// appended to the tile data.
    pub fn add_tile(&mut self, id: u64, blob: Vec<u8>) -> (staged: Option<Vec<u8>>)
        requires
            old(self).wf(),
            accepts(pack(old(self).tiles()), id, blob@.len()),
            old(self).tiles().len() < u64::MAX,
        ensures
            final(self).wf(),
            final(self).tiles() == old(self).tiles().push((id, blob@)),
            match staged {
                Some(bytes) => bytes@ == blob@ && pack(final(self).tiles()).data == pack(
                    old(self).tiles(),
                ).data + blob@,
                None => pack(final(self).tiles()).data == pack(old(self).tiles()).data,
            },
            staged is Some <==> find_blob(pack(old(self).tiles()).blobs, sha256_of(blob@)) is None,
    {
        let ghost before = self.tiles@;
        let ghost p = pack(before);
        let ghost tile = (id, blob@);
        proof {
            assert(before.push(tile).drop_last() =~= before);
            assert(before.push(tile).last() == tile);
            self.tiles = Ghost(before.push(tile));
        }
        self.addressed = self.addressed + 1;
        let hash: [u8; 32] = sha256(blob.as_slice());
        let known: Option<(u64, u32)> = self.index.find(&hash);
        let n: usize = self.entries.len();
        if n > 0 {
            let last: Entry = self.entries[n - 1];
            if let Some((offset, length)) = known {
                if last.tile_id + last.run_length as u64 == id && offset == last.offset && length
                    == last.length {
                    self.entries.set(
                        n - 1,
                        Entry {
                            tile_id: last.tile_id,
                            offset: last.offset,
                            length: last.length,
                            run_length: last.run_length + 1,
                        },
                    );
                    return None;
                }
            }
        }
        match known {
            Some((offset, length)) => {
                self.entries.push(Entry { tile_id: id, offset, length, run_length: 1 });
                None
            },
            None => {
                let offset: u64 = self.data_len;
                let length: u32 = (blob.len() as u64 % 0x1_0000_0000) as u32;
                self.data_len = self.data_len + length as u64;
                self.index.insert(hash, offset, length);
                self.entries.push(Entry { tile_id: id, offset, length, run_length: 1 });
                Some(blob)
            },
        }
    }

    /// The directory entries so far.
    pub fn entries(&self) -> (entries: &Vec<Entry>)
        requires
            self.wf(),
        ensures
            entries@ == pack(self.tiles()).entries,
    {
        &self.entries
    }

    /// How many tiles were added.
    pub fn addressed_tiles(&self) -> (n: u64)
        requires
            self.wf(),
        ensures
            n == self.tiles().len(),
    {
        self.addressed
    }

    /// How many distinct blobs the tiles have.
    pub fn tile_contents(&self) -> (n: u64)
        requires
            self.wf(),
        ensures
            n == pack(self.tiles()).blobs.len(),
    {
        self.index.len() as u64
    }

    /// The length of the tile data.
    pub fn data_length(&self) -> (n: u64)
        requires
            self.wf(),
        ensures
            n == pack(self.tiles()).data_len,
            sound(pack(self.tiles())),
    {
        proof {
            lemma_pack_is_sound(self.tiles@);
        }
        self.data_len
    }
}

} // verus!
