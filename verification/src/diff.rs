//! Comparing two tile stores.
use crate::digest::{same_digest, sha256, sha256_of};
use crate::text::{
    decimal, decimal_text, has_part, holds_text, joined, lemma_has_part, lemma_is_suffix,
    lemma_padding_is_on_the_left, pad_left, padded, same_text, texts,
};
use crate::tiles::{TileComparison, TileCoord};
use vstd::prelude::*;

verus! {

/// The digest by which tiles are compared.
pub fn hash_tile(data: &[u8]) -> (hash: [u8; 32])
    ensures
        hash@ == sha256_of(data@),
{
    sha256(data)
}

/// The digest of an optional tile.
pub open spec fn optional_digest(data: Option<Vec<u8>>) -> Option<Seq<u8>> {
    match data {
        Some(bytes) => Some(sha256_of(bytes@)),
        None => None,
    }
}

/// The bytes of an optional digest.
pub open spec fn digest_bytes(hash: Option<[u8; 32]>) -> Option<Seq<u8>> {
    match hash {
        Some(hash) => Some(hash@),
        None => None,
    }
}

/// Whether two optional digests differ.
pub fn digests_differ(a: Option<[u8; 32]>, b: Option<[u8; 32]>) -> (differ: bool)
    ensures
        differ == (digest_bytes(a) != digest_bytes(b)),
{
    match (a, b) {
        (Some(x), Some(y)) => !same_digest(&x, &y),
        (None, None) => false,
        _ => true,
    }
}

/// Whether a tile differs between two stores, by its digests.
pub fn tile_changed(a: Option<Vec<u8>>, b: Option<Vec<u8>>) -> (changed: bool)
    ensures
        changed == (optional_digest(a) != optional_digest(b)),
{
    let hash_a: Option<[u8; 32]> = match a {
        Some(data) => Some(hash_tile(data.as_slice())),
        None => None,
    };
    let hash_b: Option<[u8; 32]> = match b {
        Some(data) => Some(hash_tile(data.as_slice())),
        None => None,
    };
    digests_differ(hash_a, hash_b)
}

/// The bytes that two stores hold for a tile, as far as they hold it.
pub type Reading = (Option<Seq<u8>>, Option<Seq<u8>>);

/// The bytes of an optional tile.
pub open spec fn optional_bytes(data: Option<Vec<u8>>) -> Option<Seq<u8>> {
    match data {
        Some(bytes) => Some(bytes@),
        None => None,
    }
}

/// A tile differs by its digests.
pub open spec fn differs(reading: Reading) -> bool {
    match reading {
        (Some(a), Some(b)) => sha256_of(a) != sha256_of(b),
        (None, None) => false,
        _ => true,
    }
}

/// The tiles that differ, of those that have been read.
pub open spec fn changed_of(places: Seq<TileCoord>, read: Seq<Reading>) -> Seq<TileCoord>
    decreases read.len(),
{
    if read.len() == 0 {
        Seq::empty()
    } else {
        let front = changed_of(places, read.drop_last());
        if differs(read.last()) {
            front.push(places[read.len() - 1])
        } else {
            front
        }
    }
}

/// The changed tiles are exactly the shared ones whose digests differ.
pub proof fn lemma_changed_are_those_that_differ(
    places: Seq<TileCoord>,
    read: Seq<Reading>,
    t: TileCoord,
)
    requires
        read.len() <= places.len(),
    ensures
        changed_of(places, read).len() <= read.len(),
        changed_of(places, read).contains(t) <==> exists|i: int|
            0 <= i < read.len() && differs(#[trigger] read[i]) && places[i] == t,
    decreases read.len(),
{
    if read.len() > 0 {
        let rest = read.drop_last();
        let front = changed_of(places, rest);
        let all = changed_of(places, read);
        let n = read.len() - 1;
        lemma_changed_are_those_that_differ(places, rest, t);
        if all.contains(t) {
            let k = choose|k: int| 0 <= k < all.len() && all[k] == t;
            if k < front.len() {
                assert(front[k] == t);
                let i = choose|i: int|
                    0 <= i < rest.len() && differs(#[trigger] rest[i]) && places[i] == t;
                assert(differs(read[i]));
            } else {
                assert(differs(read[n]) && places[n] == t);
            }
        }
        if exists|i: int| 0 <= i < read.len() && differs(#[trigger] read[i]) && places[i] == t {
            let i = choose|i: int|
                0 <= i < read.len() && differs(#[trigger] read[i]) && places[i] == t;
            if i < n {
                assert(differs(rest[i]));
                let k = choose|k: int| 0 <= k < front.len() && front[k] == t;
                assert(all[k] == t);
            } else {
                assert(all[front.len() as int] == t);
            }
        }
    } else {
        assert(!changed_of(places, read).contains(t));
    }
}

/// A walk over the tiles that two stores share, in which each is read from both.
pub struct TileScan {
    tiles: TileComparison,
    changed: Vec<TileCoord>,
    done: usize,
    read: Ghost<Seq<Reading>>,
}

impl TileScan {
    /// The tiles of the stores, apart and shared.
    pub closed spec fn tiles(&self) -> TileComparison {
        self.tiles
    }

    /// What has been read so far.
    pub closed spec fn read(&self) -> Seq<Reading> {
        self.read@
    }

    /// The changed tiles are those that differ of the ones read.
    pub closed spec fn wf(&self) -> bool {
        &&& self.done == self.read@.len()
        &&& self.done <= self.tiles.both@.len()
        &&& self.changed@ == changed_of(self.tiles.both@, self.read@)
    }

    /// All shared tiles have been read.
    pub open spec fn is_done(&self) -> bool {
        self.read().len() == self.tiles().both@.len()
    }

    /// Before the first tile.
    pub fn new(tiles: TileComparison) -> (scan: TileScan)
        ensures
            scan.wf(),
            scan.tiles() == tiles,
            scan.read() == Seq::<Reading>::empty(),
    {
        let scan = TileScan { tiles, changed: Vec::new(), done: 0, read: Ghost(Seq::empty()) };
        assert(scan.changed@ =~= changed_of(scan.tiles.both@, scan.read@));
        scan
    }

    /// The tile to read from both stores, until all have been read.
    pub fn next(&self) -> (tile: Option<TileCoord>)
        requires
            self.wf(),
        ensures
            tile == (if self.is_done() {
                None::<TileCoord>
            } else {
                Some(self.tiles().both@[self.read().len() as int])
            }),
    {
        if self.done < self.tiles.both.len() {
            Some(self.tiles.both[self.done])
        } else {
            None
        }
    }

    /// Take what the stores hold for the tile.
    pub fn record(&mut self, a: Option<Vec<u8>>, b: Option<Vec<u8>>)
        requires
            old(self).wf(),
            !old(self).is_done(),
        ensures
            final(self).wf(),
            final(self).tiles() == old(self).tiles(),
            final(self).read() == old(self).read().push((optional_bytes(a), optional_bytes(b))),
    {
        let ghost reading: Reading = (optional_bytes(a), optional_bytes(b));
        let ghost before = self.read@;
        let shared: usize = self.tiles.both.len();
        assert(self.done < shared);
        let tile: TileCoord = self.tiles.both[self.done];
        if tile_changed(a, b) {
            self.changed.push(tile);
        }
        self.done = self.done + 1;
        self.read = Ghost(before.push(reading));
        assert(before.push(reading).drop_last() =~= before);
    }

    /// The shared tiles that differ.
    pub fn changed(&self) -> (changed: &Vec<TileCoord>)
        requires
            self.wf(),
        ensures
            changed@ == changed_of(self.tiles().both@, self.read()),
    {
        &self.changed
    }
}

/// The names in some metadata.
pub open spec fn names_of(metadata: Seq<(String, String)>) -> Seq<Seq<char>> {
    Seq::new(metadata.len(), |i: int| metadata[i].0@)
}

/// The value under a name: the last one.
pub open spec fn value_of(metadata: Seq<(String, String)>, name: Seq<char>) -> Option<Seq<char>>
    decreases metadata.len(),
{
    if metadata.len() == 0 {
        None
    } else if metadata.last().0@ == name {
        Some(metadata.last().1@)
    } else {
        value_of(metadata.drop_last(), name)
    }
}

/// How a name's value differs; nothing where it does not.
pub open spec fn difference(
    name: Seq<char>,
    a: Option<Seq<char>>,
    b: Option<Seq<char>>,
) -> Option<Seq<char>> {
    match (a, b) {
        (Some(x), Some(y)) => if x != y {
            Some("  "@ + name + ": \""@ + x + "\" -> \""@ + y + "\""@)
        } else {
            None
        },
        (Some(x), None) => Some("  "@ + name + ": \""@ + x + "\" -> (removed)"@),
        (None, Some(y)) => Some("  "@ + name + ": (added) -> \""@ + y + "\""@),
        (None, None) => None,
    }
}

/// The differences under some names, those already seen left out.
pub open spec fn differences(
    names: Seq<Seq<char>>,
    a: Seq<(String, String)>,
    b: Seq<(String, String)>,
) -> Seq<Seq<char>>
    decreases names.len(),
{
    if names.len() == 0 {
        Seq::empty()
    } else {
        let earlier = names.drop_last();
        let front = differences(earlier, a, b);
        let name = names.last();
        if earlier.contains(name) {
            front
        } else {
            match difference(name, value_of(a, name), value_of(b, name)) {
                Some(line) => front.push(line),
                None => front,
            }
        }
    }
}

fn find_value<'a>(metadata: &'a Vec<(String, String)>, name: &str) -> (found: Option<&'a String>)
    ensures
        match found {
            Some(value) => value_of(metadata@, name@) == Some(value@),
            None => value_of(metadata@, name@) is None,
        },
{
    let mut i: usize = metadata.len();
    assert(metadata@.take(i as int) =~= metadata@);
    while i > 0
        invariant
            i <= metadata@.len(),
            value_of(metadata@, name@) == value_of(metadata@.take(i as int), name@),
        decreases i,
    {
        assert(metadata@.take(i as int).last() == metadata@[i - 1]);
        assert(metadata@.take(i as int).drop_last() =~= metadata@.take(i - 1));
        if same_text(metadata[i - 1].0.as_str(), name) {
            return Some(&metadata[i - 1].1);
        }
        i = i - 1;
    }
    None
}

fn difference_text(name: &str, a: Option<&String>, b: Option<&String>) -> (line: Option<String>)
    ensures
        (match line {
            Some(line) => Some(line@),
            None => None,
        }) == difference(
            name@,
            match a {
                Some(x) => Some(x@),
                None => None,
            },
            match b {
                Some(y) => Some(y@),
                None => None,
            },
        ),
{
    match (a, b) {
        (Some(x), Some(y)) => {
            if same_text(x.as_str(), y.as_str()) {
                return None;
            }
            let mut line: String = joined("  ", name);
            line.append(": \"");
            line.append(x.as_str());
            line.append("\" -> \"");
            line.append(y.as_str());
            line.append("\"");
            Some(line)
        },
        (Some(x), None) => {
            let mut line: String = joined("  ", name);
            line.append(": \"");
            line.append(x.as_str());
            line.append("\" -> (removed)");
            Some(line)
        },
        (None, Some(y)) => {
            let mut line: String = joined("  ", name);
            line.append(": (added) -> \"");
            line.append(y.as_str());
            line.append("\"");
            Some(line)
        },
        (None, None) => None,
    }
}

/// The differences between the metadata of two stores: the names of the first
/// in their order, then those that only the second has.
pub fn metadata_differences(a: &Vec<(String, String)>, b: &Vec<(String, String)>) -> (lines: Vec<
    String,
>)
    ensures
        texts(lines@) == differences(names_of(a@) + names_of(b@), a@, b@),
{
    let ghost all = names_of(a@) + names_of(b@);
    let mut seen: Vec<String> = Vec::new();
    let mut lines: Vec<String> = Vec::new();
    assert(all.take(0) =~= Seq::<Seq<char>>::empty());
    assert(texts(seen@) =~= all.take(0));
    assert(texts(lines@) =~= differences(all.take(0), a@, b@));
    for i in 0..a.len()
        invariant
            all == names_of(a@) + names_of(b@),
            texts(seen@) == all.take(i as int),
            texts(lines@) == differences(all.take(i as int), a@, b@),
    {
        assert(all[i as int] == a@[i as int].0@);
        push_difference(&mut lines, &mut seen, a[i].0.as_str(), a, b, Ghost(all.take(i as int)));
        assert(all.take(i as int + 1) =~= all.take(i as int).push(all[i as int]));
    }
    for i in 0..b.len()
        invariant
            all == names_of(a@) + names_of(b@),
            texts(seen@) == all.take(a@.len() + i),
            texts(lines@) == differences(all.take(a@.len() + i), a@, b@),
    {
        let ghost k = a@.len() + i;
        assert(all[k] == b@[i as int].0@);
        push_difference(&mut lines, &mut seen, b[i].0.as_str(), a, b, Ghost(all.take(k)));
        assert(all.take(k + 1) =~= all.take(k).push(all[k]));
    }
    assert(all.take((a@.len() + b@.len()) as int) =~= all);
    lines
}

fn push_difference(
    lines: &mut Vec<String>,
    seen: &mut Vec<String>,
    name: &str,
    a: &Vec<(String, String)>,
    b: &Vec<(String, String)>,
    Ghost(earlier): Ghost<Seq<Seq<char>>>,
)
    requires
        texts(old(seen)@) == earlier,
        texts(old(lines)@) == differences(earlier, a@, b@),
    ensures
        texts(final(seen)@) == earlier.push(name@),
        texts(final(lines)@) == differences(earlier.push(name@), a@, b@),
{
    let ghost held = lines@;
    assert(earlier.push(name@).drop_last() =~= earlier);
    if !holds_text(seen, name) {
        if let Some(line) = difference_text(name, find_value(a, name), find_value(b, name)) {
            let ghost text = line@;
            lines.push(line);
            assert(texts(lines@) =~= texts(held).push(text));
        }
    }
    seen.push(name.to_owned());
    assert(texts(seen@) =~= earlier.push(name@));
}

/// How many tiles are of a zoom.
pub open spec fn count_at(tiles: Seq<TileCoord>, z: u8) -> nat
    decreases tiles.len(),
{
    if tiles.len() == 0 {
        0
    } else {
        count_at(tiles.drop_last(), z) + (if tiles.last().z == z {
            1nat
        } else {
            0
        })
    }
}

fn count_zoom(tiles: &Vec<TileCoord>, z: u8) -> (n: u64)
    ensures
        n == count_at(tiles@, z),
{
    let mut n: u64 = 0;
    assert(tiles@.take(0) =~= Seq::<TileCoord>::empty());
    for i in 0..tiles.len()
        invariant
            n == count_at(tiles@.take(i as int), z),
            n <= i,
    {
        assert(tiles@.take(i + 1).last() == tiles@[i as int]);
        assert(tiles@.take(i + 1).drop_last() =~= tiles@.take(i as int));
        if tiles[i].z == z {
            n = n + 1;
        }
    }
    assert(tiles@.take(tiles@.len() as int) =~= tiles@);
    n
}

/// A row of the table of changes.
pub open spec fn change_row(
    zoom: Seq<char>,
    added: Seq<char>,
    removed: Seq<char>,
    changed: Seq<char>,
) -> Seq<char> {
    "  "@ + padded(zoom, 5) + "  "@ + padded(added, 8) + "  "@ + padded(removed, 8) + "  "@ + padded(
        changed,
        8,
    )
}

fn row_text(zoom: &str, added: &str, removed: &str, changed: &str) -> (text: String)
    ensures
        text@ == change_row(zoom@, added@, removed@, changed@),
{
    let mut text: String = joined("  ", pad_left(zoom, 5).as_str());
    text.append("  ");
    text.append(pad_left(added, 8).as_str());
    text.append("  ");
    text.append(pad_left(removed, 8).as_str());
    text.append("  ");
    text.append(pad_left(changed, 8).as_str());
    text
}

/// The rows for the zooms below `n` at which something differs.
pub open spec fn change_rows(
    added: Seq<TileCoord>,
    removed: Seq<TileCoord>,
    changed: Seq<TileCoord>,
    n: nat,
) -> Seq<Seq<char>>
    decreases n,
{
    if n == 0 {
        Seq::empty()
    } else {
        let z = (n - 1) as u8;
        let front = change_rows(added, removed, changed, (n - 1) as nat);
        let a = count_at(added, z);
        let r = count_at(removed, z);
        let c = count_at(changed, z);
        if a > 0 || r > 0 || c > 0 {
            front.push(change_row(decimal(z as nat), decimal(a), decimal(r), decimal(c)))
        } else {
            front
        }
    }
}

/// The lines on metadata.
pub open spec fn metadata_part(a: Seq<(String, String)>, b: Seq<(String, String)>) -> Seq<
    Seq<char>,
> {
    let lines = differences(names_of(a) + names_of(b), a, b);
    if lines.len() == 0 {
        seq!["Metadata: identical"@]
    } else {
        seq!["Metadata differences:"@] + lines
    }
}

/// The lines on tiles.
pub open spec fn tile_part(
    count_a: nat,
    count_b: nat,
    only_a: Seq<TileCoord>,
    only_b: Seq<TileCoord>,
    both: nat,
    changed: Seq<TileCoord>,
) -> Seq<Seq<char>> {
    seq![
        "Tile count: "@ + decimal(count_a) + " -> "@ + decimal(count_b),
        Seq::empty(),
        "Summary:"@,
        "  Added tiles (only in B):   "@ + decimal(only_b.len()),
        "  Removed tiles (only in A): "@ + decimal(only_a.len()),
        "  Changed tiles (different): "@ + decimal(changed.len()),
        "  Unchanged tiles:           "@ + decimal((both - changed.len()) as nat),
    ] + (if only_a.len() > 0 || only_b.len() > 0 || changed.len() > 0 {
        seq![
            Seq::empty(),
            "Changes by zoom level:"@,
            change_row("Zoom"@, "Added"@, "Removed"@, "Changed"@),
            change_row("-----"@, "--------"@, "--------"@, "--------"@),
        ] + change_rows(only_b, only_a, changed, 256)
    } else {
        Seq::empty()
    })
}

/// One of the two stores: its path, its metadata and how many tiles it has.
#[derive(Debug)]
pub struct DiffSide {
    pub path: String,
    pub metadata: Vec<(String, String)>,
    pub tile_count: u64,
}

/// The report on two stores whose shared tiles have all been read.
pub fn diff_report(a: &DiffSide, b: &DiffSide, scan: &TileScan) -> (lines: Vec<String>)
    requires
        scan.wf(),
        scan.is_done(),
    ensures
        texts(lines@) == seq![
            "Comparing:"@,
            "  A: "@ + a.path@,
            "  B: "@ + b.path@,
            Seq::empty(),
        ] + metadata_part(a.metadata@, b.metadata@) + seq![Seq::<char>::empty()] + tile_part(
            a.tile_count as nat,
            b.tile_count as nat,
            scan.tiles().only_a@,
            scan.tiles().only_b@,
            scan.tiles().both@.len(),
            changed_of(scan.tiles().both@, scan.read()),
        ),
{
    let mut lines: Vec<String> = Vec::new();
    lines.push("Comparing:".to_owned());
    lines.push(joined("  A: ", a.path.as_str()));
    lines.push(joined("  B: ", b.path.as_str()));
    lines.push(String::new());
    let ghost head = seq![
        "Comparing:"@,
        "  A: "@ + a.path@,
        "  B: "@ + b.path@,
        Seq::<char>::empty(),
    ];
    assert(texts(lines@) =~= head);
    let mut differing: Vec<String> = metadata_differences(&a.metadata, &b.metadata);
    let ghost found = differing@;
    if differing.len() == 0 {
        lines.push("Metadata: identical".to_owned());
        assert(texts(found).len() == 0);
        assert(texts(lines@) =~= head + seq!["Metadata: identical"@]);
    } else {
        assert(texts(found).len() > 0);
        lines.push("Metadata differences:".to_owned());
        assert(texts(lines@) =~= head + seq!["Metadata differences:"@]);
        lines.append(&mut differing);
        assert(texts(lines@) =~= head + (seq!["Metadata differences:"@] + texts(found)));
    }
    let ghost part = metadata_part(a.metadata@, b.metadata@);
    lines.push(String::new());
    assert(texts(lines@) =~= head + part + seq![Seq::<char>::empty()]);
    proof {
        let any = TileCoord { z: 0, x: 0, y: 0 };
        lemma_changed_are_those_that_differ(scan.tiles.both@, scan.read@, any);
    }
    push_tiles(&mut lines, a.tile_count, b.tile_count, &scan.tiles, scan.changed());
    lines
}

fn push_tiles(
    lines: &mut Vec<String>,
    count_a: u64,
    count_b: u64,
    tiles: &TileComparison,
    changed: &Vec<TileCoord>,
)
    requires
        changed@.len() <= tiles.both@.len(),
    ensures
        texts(final(lines)@) == texts(old(lines)@) + tile_part(
            count_a as nat,
            count_b as nat,
            tiles.only_a@,
            tiles.only_b@,
            tiles.both@.len(),
            changed@,
        ),
{
    let ghost before = texts(lines@);
    let mut counts: String = joined("Tile count: ", decimal_text(count_a).as_str());
    counts.append(" -> ");
    counts.append(decimal_text(count_b).as_str());
    let ghost counted = counts@;
    lines.push(counts);
    lines.push(String::new());
    lines.push("Summary:".to_owned());
    lines.push(
        joined("  Added tiles (only in B):   ", decimal_text(tiles.only_b.len() as u64).as_str()),
    );
    lines.push(
        joined("  Removed tiles (only in A): ", decimal_text(tiles.only_a.len() as u64).as_str()),
    );
    lines.push(
        joined("  Changed tiles (different): ", decimal_text(changed.len() as u64).as_str()),
    );
    lines.push(
        joined(
            "  Unchanged tiles:           ",
            decimal_text((tiles.both.len() - changed.len()) as u64).as_str(),
        ),
    );
    let ghost summary = seq![
        counted,
        Seq::<char>::empty(),
        "Summary:"@,
        "  Added tiles (only in B):   "@ + decimal(tiles.only_b@.len()),
        "  Removed tiles (only in A): "@ + decimal(tiles.only_a@.len()),
        "  Changed tiles (different): "@ + decimal(changed@.len()),
        "  Unchanged tiles:           "@ + decimal((tiles.both@.len() - changed@.len()) as nat),
    ];
    assert(texts(lines@) =~= before + summary);
    if tiles.only_a.len() > 0 || tiles.only_b.len() > 0 || changed.len() > 0 {
        lines.push(String::new());
        lines.push("Changes by zoom level:".to_owned());
        lines.push(row_text("Zoom", "Added", "Removed", "Changed"));
        lines.push(row_text("-----", "--------", "--------", "--------"));
        let ghost table = seq![
            Seq::<char>::empty(),
            "Changes by zoom level:"@,
            change_row("Zoom"@, "Added"@, "Removed"@, "Changed"@),
            change_row("-----"@, "--------"@, "--------"@, "--------"@),
        ];
        assert(texts(lines@) =~= before + summary + table);
        push_rows(lines, &tiles.only_b, &tiles.only_a, changed);
        let ghost rows = change_rows(tiles.only_b@, tiles.only_a@, changed@, 256);
        assert(texts(lines@) =~= before + (summary + (table + rows)));
    } else {
        assert(texts(lines@) =~= before + (summary + Seq::<Seq<char>>::empty()));
    }
}

fn push_rows(
    lines: &mut Vec<String>,
    added: &Vec<TileCoord>,
    removed: &Vec<TileCoord>,
    changed: &Vec<TileCoord>,
)
    ensures
        texts(final(lines)@) == texts(old(lines)@) + change_rows(
            added@,
            removed@,
            changed@,
            256,
        ),
{
    let ghost before = texts(lines@);
    assert(before + change_rows(added@, removed@, changed@, 0) =~= before);
    let mut n: usize = 0;
    while n < 256
        invariant
            n <= 256,
            texts(lines@) == before + change_rows(added@, removed@, changed@, n as nat),
        decreases 256 - n,
    {
        let ghost held = lines@;
        let z: u8 = n as u8;
        let a: u64 = count_zoom(added, z);
        let r: u64 = count_zoom(removed, z);
        let c: u64 = count_zoom(changed, z);
        if a > 0 || r > 0 || c > 0 {
            let row: String = row_text(
                decimal_text(z as u64).as_str(),
                decimal_text(a).as_str(),
                decimal_text(r).as_str(),
                decimal_text(c).as_str(),
            );
            let ghost text = row@;
            lines.push(row);
            assert(texts(lines@) =~= texts(held).push(text));
            assert(texts(lines@) =~= before + change_rows(
                added@,
                removed@,
                changed@,
                n as nat + 1,
            ));
        }
        n = n + 1;
    }
}

/// A shared tile has changed where only one of the stores could give its bytes,
/// or where the two stores' bytes have different digests. No other has.
pub proof fn lemma_changed_by_their_digests(
    places: Seq<TileCoord>,
    read: Seq<Reading>,
    t: TileCoord,
)
    requires
        read.len() <= places.len(),
    ensures
        changed_of(places, read).contains(t) <==> exists|i: int|
            0 <= i < read.len() && places[i] == t && (#[trigger] read[i]).0 != read[i].1 && (
            read[i].0 is Some && read[i].1 is Some ==> sha256_of(read[i].0->0) != sha256_of(
                read[i].1->0,
            )),
{
    lemma_changed_are_those_that_differ(places, read, t);
    if changed_of(places, read).contains(t) {
        let i = choose|i: int|
            0 <= i < read.len() && differs(#[trigger] read[i]) && places[i] == t;
        assert(read[i].0 != read[i].1);
    }
    if exists|i: int|
        0 <= i < read.len() && places[i] == t && (#[trigger] read[i]).0 != read[i].1 && (
        read[i].0 is Some && read[i].1 is Some ==> sha256_of(read[i].0->0) != sha256_of(
            read[i].1->0,
        )) {
        let i = choose|i: int|
            0 <= i < read.len() && places[i] == t && (#[trigger] read[i]).0 != read[i].1 && (
            read[i].0 is Some && read[i].1 is Some ==> sha256_of(read[i].0->0) != sha256_of(
                read[i].1->0,
            ));
        assert(differs(read[i]) && places[i] == t);
    }
}

/// A name's value is the last one that stands under it; a name has none only
/// where nothing stands under it.
pub proof fn lemma_last_value_counts(metadata: Seq<(String, String)>, name: Seq<char>)
    ensures
        match value_of(metadata, name) {
            None => forall|i: int| 0 <= i < metadata.len() ==> (#[trigger] metadata[i]).0@ != name,
            Some(value) => exists|i: int|
                0 <= i < metadata.len() && (#[trigger] metadata[i]).0@ == name && metadata[i].1@
                    == value && forall|k: int|
                    i < k < metadata.len() ==> (#[trigger] metadata[k]).0@ != name,
        },
    decreases metadata.len(),
{
    if metadata.len() > 0 {
        let front = metadata.drop_last();
        let n = metadata.len() - 1;
        lemma_last_value_counts(front, name);
        if metadata[n].0@ == name {
            assert(metadata[n].1@ == value_of(metadata, name)->0);
        } else {
            match value_of(front, name) {
                None => {
                    assert forall|i: int| 0 <= i < metadata.len() implies (#[trigger] metadata[i]).0@
                        != name by {
                        if i < n {
                            assert(front[i] == metadata[i]);
                        }
                    }
                },
                Some(value) => {
                    let i = choose|i: int|
                        0 <= i < front.len() && (#[trigger] front[i]).0@ == name && front[i].1@
                            == value && forall|k: int|
                            i < k < front.len() ==> (#[trigger] front[k]).0@ != name;
                    assert forall|k: int| i < k < metadata.len() implies (#[trigger] metadata[k]).0@
                        != name by {
                        if k < n {
                            assert(front[k] == metadata[k]);
                        }
                    }
                    assert(metadata[i].0@ == name && metadata[i].1@ == value);
                },
            }
        }
    }
}

/// A difference is reported where the two values are not the same, and only
/// there. The report names what differs and gives each value there is.
pub proof fn lemma_difference_says_both_values(
    name: Seq<char>,
    a: Option<Seq<char>>,
    b: Option<Seq<char>>,
)
    ensures
        difference(name, a, b) is None <==> a == b,
        match difference(name, a, b) {
            None => true,
            Some(line) => {
                &&& has_part(line, name)
                &&& a is Some ==> has_part(line, a->0)
                &&& b is Some ==> has_part(line, b->0)
                &&& a is None ==> has_part(line, "(added)"@)
                &&& b is None ==> has_part(line, "(removed)"@)
            },
        },
{
    match (a, b) {
        (Some(x), Some(y)) => if x != y {
            let line = "  "@ + name + ": \""@ + x + "\" -> \""@ + y + "\""@;
            lemma_has_part("  "@, name, ": \""@ + x + "\" -> \""@ + y + "\""@);
            assert("  "@ + name + (": \""@ + x + "\" -> \""@ + y + "\""@) =~= line);
            lemma_has_part("  "@ + name + ": \""@, x, "\" -> \""@ + y + "\""@);
            assert("  "@ + name + ": \""@ + x + ("\" -> \""@ + y + "\""@) =~= line);
            lemma_has_part("  "@ + name + ": \""@ + x + "\" -> \""@, y, "\""@);
        },
        (Some(x), None) => {
            reveal_strlit("\" -> (removed)");
            reveal_strlit("\" -> ");
            reveal_strlit("(removed)");
            let line = "  "@ + name + ": \""@ + x + "\" -> (removed)"@;
            lemma_has_part("  "@, name, ": \""@ + x + "\" -> (removed)"@);
            assert("  "@ + name + (": \""@ + x + "\" -> (removed)"@) =~= line);
            lemma_has_part("  "@ + name + ": \""@, x, "\" -> (removed)"@);
            assert("\" -> (removed)"@ =~= "\" -> "@ + "(removed)"@);
            lemma_has_part(
                "  "@ + name + ": \""@ + x + "\" -> "@,
                "(removed)"@,
                Seq::<char>::empty(),
            );
            assert("  "@ + name + ": \""@ + x + "\" -> "@ + "(removed)"@ + Seq::<char>::empty()
                =~= line);
        },
        (None, Some(y)) => {
            reveal_strlit(": (added) -> \"");
            reveal_strlit(": ");
            reveal_strlit(" -> \"");
            reveal_strlit("(added)");
            let line = "  "@ + name + ": (added) -> \""@ + y + "\""@;
            lemma_has_part("  "@, name, ": (added) -> \""@ + y + "\""@);
            assert("  "@ + name + (": (added) -> \""@ + y + "\""@) =~= line);
            lemma_has_part("  "@ + name + ": (added) -> \""@, y, "\""@);
            lemma_has_part("  "@ + name + ": "@, "(added)"@, " -> \""@ + y + "\""@);
            assert("  "@ + name + ": "@ + "(added)"@ + (" -> \""@ + y + "\""@) =~= line);
        },
        (None, None) => {},
    }
}

/// How many of the first `n` names stand for the first time and have other
/// values in one store than in the other.
pub open spec fn differing_count(
    names: Seq<Seq<char>>,
    a: Seq<(String, String)>,
    b: Seq<(String, String)>,
    n: int,
) -> nat
    decreases n,
{
    if n <= 0 {
        0
    } else {
        let name = names[n - 1];
        differing_count(names, a, b, n - 1) + (if value_of(a, name) != value_of(b, name) && (forall|
            i: int,
        |
            0 <= i < n - 1 ==> (#[trigger] names[i]) != name) {
            1nat
        } else {
            0
        })
    }
}

/// Each name whose values differ is reported, once, and no other one is.
pub proof fn lemma_every_difference_is_reported(
    names: Seq<Seq<char>>,
    a: Seq<(String, String)>,
    b: Seq<(String, String)>,
)
    ensures
        differences(names, a, b).len() == differing_count(names, a, b, names.len() as int),
        forall|i: int|
            0 <= i < names.len() && value_of(a, #[trigger] names[i]) != value_of(b, names[i])
                ==> differences(names, a, b).contains(
                difference(names[i], value_of(a, names[i]), value_of(b, names[i]))->0,
            ),
    decreases names.len(),
{
    if names.len() > 0 {
        let front = names.drop_last();
        let name = names.last();
        let n = names.len() as int;
        let lines = differences(names, a, b);
        let earlier = differences(front, a, b);
        lemma_every_difference_is_reported(front, a, b);
        lemma_differing_count_of_front(names, a, b, n - 1);
        lemma_difference_says_both_values(name, value_of(a, name), value_of(b, name));
        assert(front.contains(name) <==> !(forall|i: int|
            0 <= i < n - 1 ==> (#[trigger] names[i]) != name)) by {
            if front.contains(name) {
                let k = choose|k: int| 0 <= k < front.len() && front[k] == name;
                assert(names[k] == name);
            }
            if exists|i: int| 0 <= i < n - 1 && (#[trigger] names[i]) == name {
                let k = choose|k: int| 0 <= k < n - 1 && (#[trigger] names[k]) == name;
                assert(front[k] == name);
            }
        }
        assert forall|i: int|
            0 <= i < names.len() && value_of(a, #[trigger] names[i]) != value_of(
                b,
                names[i],
            ) implies lines.contains(
            difference(names[i], value_of(a, names[i]), value_of(b, names[i]))->0,
        ) by {
            let line = difference(names[i], value_of(a, names[i]), value_of(b, names[i]))->0;
            if i < n - 1 {
                assert(front[i] == names[i]);
                assert(earlier.contains(line));
                let k = choose|k: int| 0 <= k < earlier.len() && earlier[k] == line;
                assert(lines[k] == line);
            } else if front.contains(name) {
                let j = choose|j: int| 0 <= j < front.len() && front[j] == name;
                assert(value_of(a, front[j]) != value_of(b, front[j]));
                assert(earlier.contains(line));
            } else {
                assert(lines[earlier.len() as int] == line);
            }
        }
    }
}

proof fn lemma_differing_count_of_front(
    names: Seq<Seq<char>>,
    a: Seq<(String, String)>,
    b: Seq<(String, String)>,
    n: int,
)
    requires
        n < names.len(),
    ensures
        differing_count(names, a, b, n) == differing_count(names.drop_last(), a, b, n),
    decreases n,
{
    if n > 0 {
        let front = names.drop_last();
        lemma_differing_count_of_front(names, a, b, n - 1);
        let name = names[n - 1];
        assert(front[n - 1] == name);
        assert((forall|i: int| 0 <= i < n - 1 ==> (#[trigger] names[i]) != name) <==> (forall|i: int|
            0 <= i < n - 1 ==> (#[trigger] front[i]) != name)) by {
            assert forall|i: int| 0 <= i < n - 1 implies names[i] == #[trigger] front[i] by {}
            if forall|i: int| 0 <= i < n - 1 ==> (#[trigger] names[i]) != name {
                assert forall|i: int| 0 <= i < n - 1 implies (#[trigger] front[i]) != name by {
                    assert(names[i] != name);
                }
            }
            if forall|i: int| 0 <= i < n - 1 ==> (#[trigger] front[i]) != name {
                assert forall|i: int| 0 <= i < n - 1 implies (#[trigger] names[i]) != name by {
                    assert(front[i] != name);
                }
            }
        }
    }
}

/// Metadata are called identical where every name has the same value in both
/// stores, and only there.
pub proof fn lemma_identical_metadata(a: Seq<(String, String)>, b: Seq<(String, String)>)
    ensures
        metadata_part(a, b) == seq!["Metadata: identical"@] <==> forall|name: Seq<char>|
            #![trigger value_of(a, name)]
            value_of(a, name) == value_of(b, name),
{
    let names = names_of(a) + names_of(b);
    let lines = differences(names, a, b);
    lemma_every_difference_is_reported(names, a, b);
    if lines.len() == 0 {
        assert forall|name: Seq<char>|
            #![trigger value_of(a, name)]
            value_of(a, name) == value_of(b, name) by {
            if value_of(a, name) != value_of(b, name) {
                lemma_last_value_counts(a, name);
                lemma_last_value_counts(b, name);
                if value_of(a, name) is Some {
                    let i = choose|i: int| 0 <= i < a.len() && (#[trigger] a[i]).0@ == name;
                    assert(names[i] == name);
                } else {
                    let i = choose|i: int| 0 <= i < b.len() && (#[trigger] b[i]).0@ == name;
                    assert(names[a.len() + i] == name);
                }
            }
        }
    } else {
        assert(metadata_part(a, b).len() > 1);
        lemma_some_name_differs(names, a, b);
    }
}

proof fn lemma_some_name_differs(
    names: Seq<Seq<char>>,
    a: Seq<(String, String)>,
    b: Seq<(String, String)>,
)
    requires
        differences(names, a, b).len() > 0,
    ensures
        exists|name: Seq<char>|
            #![trigger value_of(a, name)]
            value_of(a, name) != value_of(b, name),
    decreases names.len(),
{
    let name = names.last();
    lemma_difference_says_both_values(name, value_of(a, name), value_of(b, name));
    if value_of(a, name) == value_of(b, name) {
        lemma_some_name_differs(names.drop_last(), a, b);
    }
}

/// How many of some tiles are of the zooms below `n`.
pub open spec fn count_below(tiles: Seq<TileCoord>, n: nat) -> nat
    decreases n,
{
    if n == 0 {
        0
    } else {
        count_below(tiles, (n - 1) as nat) + count_at(tiles, (n - 1) as u8)
    }
}

/// Each tile counts at its own zoom and at no other: one more tile makes one
/// more there and changes nothing elsewhere.
pub proof fn lemma_tile_counts_at_its_zoom(tiles: Seq<TileCoord>, t: TileCoord, z: u8)
    ensures
        count_at(Seq::empty(), z) == 0,
        count_at(tiles.push(t), z) == count_at(tiles, z) + if t.z == z {
            1nat
        } else {
            0
        },
{
    assert(tiles.push(t).drop_last() =~= tiles);
}

proof fn lemma_count_below_of_one_more(tiles: Seq<TileCoord>, t: TileCoord, n: nat)
    requires
        n <= 256,
    ensures
        count_below(tiles.push(t), n) == count_below(tiles, n) + if t.z < n {
            1nat
        } else {
            0
        },
    decreases n,
{
    if n > 0 {
        lemma_count_below_of_one_more(tiles, t, (n - 1) as nat);
        lemma_tile_counts_at_its_zoom(tiles, t, (n - 1) as u8);
    }
}

/// The counts of all zooms add up to all tiles.
pub proof fn lemma_counts_add_up(tiles: Seq<TileCoord>)
    ensures
        count_below(tiles, 256) == tiles.len(),
    decreases tiles.len(),
{
    if tiles.len() > 0 {
        lemma_counts_add_up(tiles.drop_last());
        lemma_count_below_of_one_more(tiles.drop_last(), tiles.last(), 256);
        assert(tiles.drop_last().push(tiles.last()) =~= tiles);
    } else {
        lemma_no_tiles_below(tiles, 256);
    }
}

proof fn lemma_no_tiles_below(tiles: Seq<TileCoord>, n: nat)
    requires
        tiles.len() == 0,
    ensures
        count_below(tiles, n) == 0,
    decreases n,
{
    if n > 0 {
        lemma_no_tiles_below(tiles, (n - 1) as nat);
    }
}

/// A row's columns stand at fixed places, each flush to the right: the zoom, then
/// what was added, removed and changed.
pub proof fn lemma_row_has_four_columns(
    zoom: Seq<char>,
    added: Seq<char>,
    removed: Seq<char>,
    changed: Seq<char>,
)
    requires
        zoom.len() <= 5,
        added.len() <= 8,
        removed.len() <= 8,
        changed.len() <= 8,
    ensures
        change_row(zoom, added, removed, changed).len() == 37,
        change_row(zoom, added, removed, changed).subrange(7 - zoom.len(), 7) == zoom,
        change_row(zoom, added, removed, changed).subrange(17 - added.len(), 17) == added,
        change_row(zoom, added, removed, changed).subrange(27 - removed.len(), 27) == removed,
        change_row(zoom, added, removed, changed).subrange(37 - changed.len(), 37) == changed,
{
    reveal_strlit("  ");
    lemma_padding_is_on_the_left(zoom, 5);
    lemma_padding_is_on_the_left(added, 8);
    lemma_padding_is_on_the_left(removed, 8);
    lemma_padding_is_on_the_left(changed, 8);
    let row = change_row(zoom, added, removed, changed);
    assert(row.subrange(7 - zoom.len(), 7) =~= zoom);
    assert(row.subrange(17 - added.len(), 17) =~= added);
    assert(row.subrange(27 - removed.len(), 27) =~= removed);
    assert(row.subrange(37 - changed.len(), 37) =~= changed);
}

/// Each zoom at which a tile was added, removed or changed has its row, with
/// the three counts.
pub proof fn lemma_every_changed_zoom_has_a_row(
    added: Seq<TileCoord>,
    removed: Seq<TileCoord>,
    changed: Seq<TileCoord>,
    n: nat,
    z: u8,
)
    requires
        z < n <= 256,
        count_at(added, z) + count_at(removed, z) + count_at(changed, z) > 0,
    ensures
        change_rows(added, removed, changed, n).contains(
            change_row(
                decimal(z as nat),
                decimal(count_at(added, z)),
                decimal(count_at(removed, z)),
                decimal(count_at(changed, z)),
            ),
        ),
    decreases n,
{
    let rows = change_rows(added, removed, changed, n);
    let front = change_rows(added, removed, changed, (n - 1) as nat);
    let row = change_row(
        decimal(z as nat),
        decimal(count_at(added, z)),
        decimal(count_at(removed, z)),
        decimal(count_at(changed, z)),
    );
    if z < n - 1 {
        lemma_every_changed_zoom_has_a_row(added, removed, changed, (n - 1) as nat, z);
        let k = choose|k: int| 0 <= k < front.len() && front[k] == row;
        assert(rows[k] == row);
    } else {
        assert(rows[front.len() as int] == row);
    }
}

/// How many of the zooms below `n` have a tile that was added, removed or changed.
pub open spec fn zooms_that_changed(
    added: Seq<TileCoord>,
    removed: Seq<TileCoord>,
    changed: Seq<TileCoord>,
    n: nat,
) -> nat
    decreases n,
{
    if n == 0 {
        0
    } else {
        let z = (n - 1) as u8;
        zooms_that_changed(added, removed, changed, (n - 1) as nat) + (if count_at(added, z)
            + count_at(removed, z) + count_at(changed, z) > 0 {
            1nat
        } else {
            0
        })
    }
}

/// There is one row for each zoom at which something differs, and no other row.
pub proof fn lemma_rows_are_of_changed_zooms(
    added: Seq<TileCoord>,
    removed: Seq<TileCoord>,
    changed: Seq<TileCoord>,
    n: nat,
)
    ensures
        change_rows(added, removed, changed, n).len() == zooms_that_changed(
            added,
            removed,
            changed,
            n,
        ),
    decreases n,
{
    if n > 0 {
        lemma_rows_are_of_changed_zooms(added, removed, changed, (n - 1) as nat);
    }
}

/// The summary gives, one line each and in this order: the tiles of both stores,
/// then how many only the second has, how many only the first has, how many differ,
/// and how many of the shared ones do not. The table follows where one of the first
/// three is not zero.
pub proof fn lemma_summary_counts_every_tile(
    count_a: nat,
    count_b: nat,
    only_a: Seq<TileCoord>,
    only_b: Seq<TileCoord>,
    both: nat,
    changed: Seq<TileCoord>,
)
    requires
        changed.len() <= both,
    ensures
        ({
            let lines = tile_part(count_a, count_b, only_a, only_b, both, changed);
            &&& has_part(lines[0], decimal(count_a))
            &&& decimal(count_b).is_suffix_of(lines[0])
            &&& decimal(only_b.len()).is_suffix_of(lines[3])
            &&& decimal(only_a.len()).is_suffix_of(lines[4])
            &&& decimal(changed.len()).is_suffix_of(lines[5])
            &&& decimal((both - changed.len()) as nat).is_suffix_of(lines[6])
            &&& "  Added"@.is_prefix_of(lines[3])
            &&& "  Removed"@.is_prefix_of(lines[4])
            &&& "  Changed"@.is_prefix_of(lines[5])
            &&& "  Unchanged"@.is_prefix_of(lines[6])
            &&& only_a.len() + only_b.len() + changed.len() == 0 <==> lines.len() == 7
            &&& only_a.len() + only_b.len() + changed.len() > 0 ==> lines.len() == 11
                + zooms_that_changed(only_b, only_a, changed, 256) && lines.skip(11)
                == change_rows(only_b, only_a, changed, 256)
        }),
{
    reveal_strlit("  Added tiles (only in B):   ");
    reveal_strlit("  Removed tiles (only in A): ");
    reveal_strlit("  Changed tiles (different): ");
    reveal_strlit("  Unchanged tiles:           ");
    reveal_strlit("  Added");
    reveal_strlit("  Removed");
    reveal_strlit("  Changed");
    reveal_strlit("  Unchanged");
    let lines = tile_part(count_a, count_b, only_a, only_b, both, changed);
    lemma_rows_are_of_changed_zooms(only_b, only_a, changed, 256);
    lemma_has_part("Tile count: "@, decimal(count_a), " -> "@ + decimal(count_b));
    assert("Tile count: "@ + decimal(count_a) + (" -> "@ + decimal(count_b)) =~= lines[0]);
    lemma_is_suffix("Tile count: "@ + decimal(count_a) + " -> "@, decimal(count_b));
    lemma_is_suffix("  Added tiles (only in B):   "@, decimal(only_b.len()));
    lemma_is_suffix("  Removed tiles (only in A): "@, decimal(only_a.len()));
    lemma_is_suffix("  Changed tiles (different): "@, decimal(changed.len()));
    lemma_is_suffix("  Unchanged tiles:           "@, decimal((both - changed.len()) as nat));
    assert("  Added"@ =~= lines[3].subrange(0, 7));
    assert("  Removed"@ =~= lines[4].subrange(0, 9));
    assert("  Changed"@ =~= lines[5].subrange(0, 9));
    assert("  Unchanged"@ =~= lines[6].subrange(0, 11));
    if only_a.len() + only_b.len() + changed.len() > 0 {
        assert(lines.skip(11) =~= change_rows(only_b, only_a, changed, 256));
    }
}

/// Names, bytes and digests are taken as they are.
pub proof fn lemma_readings_as_they_are(
    metadata: Seq<(String, String)>,
    data: Option<Vec<u8>>,
    hash: Option<[u8; 32]>,
)
    ensures
        names_of(metadata).len() == metadata.len(),
        forall|i: int| 0 <= i < metadata.len() ==> #[trigger] names_of(metadata)[i]
            == metadata[i].0@,
        data is None ==> optional_bytes(data) is None && optional_digest(data) is None,
        data is Some ==> optional_bytes(data) == Some(data->0@) && optional_digest(data) == Some(
            sha256_of(data->0@),
        ),
        hash is None ==> digest_bytes(hash) is None,
        hash is Some ==> digest_bytes(hash) == Some(hash->0@),
{
}

/// Metadata that differ are followed by all their differences, and by nothing else.
pub proof fn lemma_all_differences_are_listed(a: Seq<(String, String)>, b: Seq<(String, String)>)
    ensures
        ({
            let lines = differences(names_of(a) + names_of(b), a, b);
            &&& metadata_part(a, b).len() == lines.len() + 1
            &&& metadata_part(a, b).skip(1) == lines
        }),
{
    let lines = differences(names_of(a) + names_of(b), a, b);
    assert(metadata_part(a, b).skip(1) =~= lines);
}

} // verus!
