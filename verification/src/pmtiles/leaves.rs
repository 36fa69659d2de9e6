//! Splitting a directory into a root and leaves.
use crate::pmtiles::archive::parse_stored;
use crate::pmtiles::directory::{
    contiguous, directory_bytes, entry_end, lemma_directory_round_trip, low32, offsets_fit,
    serialize_directory, sorted, Entry, MAX_ENTRIES,
};
use crate::pmtiles::gzip::{gunzip_of, gzip, gzip_of};
use crate::pmtiles::header::MAX_ROOT_DIR_LEN;
use crate::text::{decimal, decimal_text, has_part, lemma_has_part};
use vstd::prelude::*;
use vstd::slice::slice_subrange;

verus! {

/// The leaf size that is tried first.
pub const FIRST_LEAF_SIZE: usize = 4096;

/// Why no directories could be built.
#[derive(Debug, Clone, Copy, PartialEq, Eq, Structural)]
pub enum BuildError {
    /// A directory could not be compressed.
    Compression,
    /// The root for this many entries does not fit at any leaf size.
    RootTooLarge(usize),
}

/// The end of leaf `i`.
pub open spec fn leaf_end(n: nat, size: nat, i: nat) -> int {
    if (i + 1) * size < n {
        ((i + 1) * size) as int
    } else {
        n as int
    }
}

/// The entries of leaf `i`.
pub open spec fn leaf_chunk(entries: Seq<Entry>, size: nat, i: nat) -> Seq<Entry> {
    entries.subrange((i * size) as int, leaf_end(entries.len(), size, i))
}

/// The stored form of leaf `i`.
pub open spec fn leaf_blob(entries: Seq<Entry>, size: nat, i: nat) -> Option<Seq<u8>> {
    gzip_of(directory_bytes(leaf_chunk(entries, size, i)))
}

/// The first `k` leaves, one behind the other, and a root entry for each:
/// the first tile number of the leaf, its place and its length.
pub open spec fn split_leaves(entries: Seq<Entry>, size: nat, k: nat) -> Option<
    (Seq<Entry>, Seq<u8>),
>
    decreases k,
{
    if k == 0 {
        Some((Seq::empty(), Seq::empty()))
    } else {
        let i = (k - 1) as nat;
        match split_leaves(entries, size, i) {
            None => None,
            Some((pointers, leaves)) => match leaf_blob(entries, size, i) {
                None => None,
                Some(blob) => Some(
                    (
                        pointers.push(
                            Entry {
                                tile_id: entries[(i * size) as int].tile_id,
                                offset: leaves.len() as u64,
                                length: low32(blob.len() as u64),
                                run_length: 0,
                            },
                        ),
                        leaves + blob,
                    ),
                ),
            },
        }
    }
}

/// The number of leaves of a size that hold `n` entries.
pub open spec fn leaf_count(n: nat, size: nat) -> nat {
    ((n + size - 1) / size as int) as nat
}

/// Root, leaves and number of leaves for one leaf size; `None` where
/// compression fails.
pub open spec fn directories_with(entries: Seq<Entry>, size: nat) -> Option<
    (Seq<u8>, Seq<u8>, nat),
> {
    match split_leaves(entries, size, leaf_count(entries.len(), size)) {
        None => None,
        Some((pointers, leaves)) => match gzip_of(directory_bytes(pointers)) {
            None => None,
            Some(root) => Some((root, leaves, pointers.len())),
        },
    }
}

/// The first leaf size from `size` on, doubling, whose root fits.
pub open spec fn split_from(entries: Seq<Entry>, size: nat) -> Result<
    (Seq<u8>, Seq<u8>, nat),
    BuildError,
>
    decreases entries.len() - size,
{
    match directories_with(entries, size) {
        None => Err(BuildError::Compression),
        Some(split) => if split.0.len() <= MAX_ROOT_DIR_LEN {
            Ok(split)
        } else if size == 0 || 2 * size > entries.len() {
            Err(BuildError::RootTooLarge(entries.len() as usize))
        } else {
            split_from(entries, 2 * size)
        },
    }
}

/// Everything in the root where that fits, and otherwise the smallest leaves
/// whose root does.
pub open spec fn directories(entries: Seq<Entry>) -> Result<
    (Seq<u8>, Seq<u8>, nat),
    BuildError,
> {
    match gzip_of(directory_bytes(entries)) {
        None => Err(BuildError::Compression),
        Some(root) => if root.len() <= MAX_ROOT_DIR_LEN {
            Ok((root, Seq::empty(), 0))
        } else {
            split_from(entries, FIRST_LEAF_SIZE as nat)
        },
    }
}

/// The leaf size that is settled on, from `size` on.
pub open spec fn leaf_size_from(entries: Seq<Entry>, size: nat) -> nat
    decreases entries.len() - size,
{
    match directories_with(entries, size) {
        Some(split) => if split.0.len() <= MAX_ROOT_DIR_LEN || size == 0 || 2 * size
            > entries.len() {
            size
        } else {
            leaf_size_from(entries, 2 * size)
        },
        None => size,
    }
}

/// The length of each of the first `k` leaves can be stated in a root entry.
pub open spec fn leaves_statable(entries: Seq<Entry>, size: nat, k: nat) -> bool {
    forall|i: nat|
        i < k ==> ((#[trigger] leaf_blob(entries, size, i)) matches Some(blob) ==> blob.len()
            <= u32::MAX)
}

/// The length of each leaf that is written, `count` in all, can be stated in a root
/// entry.
pub open spec fn written_statable(entries: Seq<Entry>, count: nat) -> bool {
    leaves_statable(entries, leaf_size_from(entries, FIRST_LEAF_SIZE as nat), count)
}

/// The entries of a stored directory.
pub open spec fn stored_directory(blob: Seq<u8>) -> Option<Seq<Entry>> {
    match parse_stored(blob) {
        Ok(entries) => Some(entries),
        Err(_) => None,
    }
}

/// What was compressed from the bytes of a directory reads back as that
/// directory.
proof fn lemma_stored_directory(blob: Seq<u8>, entries: Seq<Entry>)
    requires
        gunzip_of(blob) == Some(directory_bytes(entries)),
        sorted(entries),
        offsets_fit(entries),
        entries.len() <= MAX_ENTRIES,
    ensures
        stored_directory(blob) == Some(entries),
{
    reveal(parse_stored);
    lemma_directory_round_trip(entries, Seq::empty());
    assert(directory_bytes(entries) + Seq::<u8>::empty() =~= directory_bytes(entries));
}

/// No directory holds more entries than a reader accepts, when `n` entries are
/// spread over `count` leaves.
pub open spec fn readable(n: nat, count: nat) -> bool {
    n <= MAX_ENTRIES || (2 <= count <= MAX_ENTRIES && n <= (count - 1) * MAX_ENTRIES)
}

/// The bytes that a leaf pointer points to.
pub open spec fn pointed_to(leaves: Seq<u8>, pointer: Entry) -> Seq<u8> {
    leaves.subrange(pointer.offset as int, pointer.offset + pointer.length)
}

/// A root entry points to leaf `i`.
pub open spec fn points_to_leaf(
    pointer: Entry,
    leaves: Seq<u8>,
    entries: Seq<Entry>,
    size: nat,
    i: nat,
) -> bool {
    &&& pointer.run_length == 0
    &&& pointer.tile_id == entries[(i * size) as int].tile_id
    &&& pointer.offset + pointer.length <= leaves.len()
    &&& stored_directory(pointed_to(leaves, pointer)) == Some(leaf_chunk(entries, size, i))
}

/// Root entries point to all leaves, in order.
pub open spec fn points_to_leaves(
    pointers: Seq<Entry>,
    leaves: Seq<u8>,
    entries: Seq<Entry>,
    size: nat,
) -> bool {
    forall|i: int|
        0 <= i < pointers.len() ==> points_to_leaf(
            #[trigger] pointers[i],
            leaves,
            entries,
            size,
            i as nat,
        )
}

/// A stored root leads to the entries through leaves of one size.
pub open spec fn indexes_by_leaves(
    root: Seq<u8>,
    leaves: Seq<u8>,
    entries: Seq<Entry>,
    size: nat,
) -> bool {
    &&& size > 0
    &&& stored_directory(root) is Some
    &&& stored_directory(root)->0.len() == leaf_count(entries.len(), size)
    &&& points_to_leaves(stored_directory(root)->0, leaves, entries, size)
}

/// A stored root leads to the entries: it holds them, or points to leaves that
/// do.
pub open spec fn indexes(root: Seq<u8>, leaves: Seq<u8>, entries: Seq<Entry>) -> bool {
    ||| stored_directory(root) == Some(entries)
    ||| exists|size: nat| #[trigger] indexes_by_leaves(root, leaves, entries, size)
}

/// The entries with each leaf pointer replaced by the leaf's entries.
pub open spec fn resolve_entries(entries: Seq<Entry>, leaves: Seq<u8>) -> Option<Seq<Entry>>
    decreases entries.len(),
{
    if entries.len() == 0 {
        Some(Seq::empty())
    } else {
        let last = entries.last();
        match resolve_entries(entries.drop_last(), leaves) {
            None => None,
            Some(front) => if last.run_length != 0 {
                Some(front.push(last))
            } else if last.offset + last.length > leaves.len() {
                None
            } else {
                match stored_directory(
                    leaves.subrange(last.offset as int, last.offset + last.length),
                ) {
                    None => None,
                    Some(leaf) => Some(front + leaf),
                }
            },
        }
    }
}

/// All tile entries that a stored root and its leaves hold.
pub open spec fn resolve(root: Seq<u8>, leaves: Seq<u8>) -> Option<Seq<Entry>> {
    match stored_directory(root) {
        None => None,
        Some(entries) => resolve_entries(entries, leaves),
    }
}

/// No entry is a leaf pointer.
pub open spec fn tiles_only(entries: Seq<Entry>) -> bool {
    forall|i: int| 0 <= i < entries.len() ==> (#[trigger] entries[i]).run_length > 0
}

proof fn lemma_resolve_tiles(entries: Seq<Entry>, leaves: Seq<u8>)
    requires
        tiles_only(entries),
    ensures
        resolve_entries(entries, leaves) == Some(entries),
    decreases entries.len(),
{
    if entries.len() > 0 {
        assert(tiles_only(entries.drop_last())) by {
            assert forall|i: int| 0 <= i < entries.len() - 1 implies (
            #[trigger] entries.drop_last()[i]).run_length > 0 by {
                assert(entries[i].run_length > 0);
            }
        }
        lemma_resolve_tiles(entries.drop_last(), leaves);
        assert(entries.last() == entries[entries.len() - 1]);
        assert(entries.drop_last().push(entries.last()) =~= entries);
    } else {
        assert(entries =~= Seq::<Entry>::empty());
    }
}

proof fn lemma_resolve_extends(entries: Seq<Entry>, leaves: Seq<u8>, more: Seq<u8>)
    requires
        resolve_entries(entries, leaves) is Some,
    ensures
        resolve_entries(entries, leaves + more) == resolve_entries(entries, leaves),
    decreases entries.len(),
{
    if entries.len() > 0 {
        lemma_resolve_extends(entries.drop_last(), leaves, more);
        let last = entries.last();
        if last.run_length == 0 {
            assert((leaves + more).subrange(last.offset as int, last.offset + last.length)
                =~= leaves.subrange(last.offset as int, last.offset + last.length));
        }
    }
}

proof fn lemma_split_failure(entries: Seq<Entry>, size: nat, i: nat, k: nat)
    requires
        i <= k,
        split_leaves(entries, size, i) is None,
    ensures
        split_leaves(entries, size, k) is None,
    decreases k,
{
    if i < k {
        lemma_split_failure(entries, size, i, (k - 1) as nat);
    }
}

/// Part of a sorted directory is one itself.
proof fn lemma_chunk_is_directory(entries: Seq<Entry>, a: int, b: int)
    requires
        sorted(entries),
        offsets_fit(entries),
        0 <= a <= b <= entries.len(),
        forall|i: int| a <= i < b ==> (#[trigger] entries[i]).offset < u64::MAX,
    ensures
        sorted(entries.subrange(a, b)),
        offsets_fit(entries.subrange(a, b)),
{
    let chunk = entries.subrange(a, b);
    assert forall|i: int| 0 <= i < chunk.len() - 1 implies entry_end(
        #[trigger] chunk[i],
    ) <= u64::MAX by {
        assert(chunk[i] == entries[a + i]);
    }
    assert forall|i: int|
        0 <= i < chunk.len() && !(#[trigger] contiguous(
            chunk,
            i,
        )) implies chunk[i].offset < u64::MAX by {
        assert(chunk[i] == entries[a + i]);
    }
}

/// What a splitting run knows of the leaves it has written so far.
#[verifier::opaque]
spec fn split_state(
    entries: Seq<Entry>,
    size: nat,
    i: nat,
    pointers: Seq<Entry>,
    leaves: Seq<u8>,
) -> bool {
    &&& split_leaves(entries, size, i) == Some((pointers, leaves))
    &&& pointers.len() == i
    &&& sorted(pointers)
    &&& offsets_fit(pointers)
    &&& forall|j: int| 0 <= j < i ==> (#[trigger] pointers[j]).tile_id <= entries[(j * size) as int].tile_id
    &&& forall|j: int| 0 <= j < i ==> (#[trigger] pointers[j]).offset < leaves.len()
    &&& forall|j: int|
        0 <= j < i ==> (#[trigger] pointers[j]).offset + pointers[j].length <= leaves.len()
}

/// Split entries into a root directory and leaf directories small enough that
/// the root fits beside the header in one range request of 16 KiB.
///
/// Returns the compressed root, the compressed leaves one behind the other, and
/// the number of leaves. Reading them back gives the entries again.
pub fn build_directories(entries: &[Entry]) -> (res: Result<(Vec<u8>, Vec<u8>, usize), BuildError>)
    requires
        sorted(entries@),
        offsets_fit(entries@),
        forall|i: int| 0 <= i < entries@.len() ==> (#[trigger] entries@[i]).offset < u64::MAX,
    ensures
        match res {
            Ok((root, leaves, count)) => {
                &&& directories(entries@) == Ok::<(Seq<u8>, Seq<u8>, nat), BuildError>(
                    (root@, leaves@, count as nat),
                )
                &&& root@.len() <= MAX_ROOT_DIR_LEN
                &&& readable(entries@.len(), count as nat) && written_statable(
                    entries@,
                    count as nat,
                ) ==> indexes(root@, leaves@, entries@)
                &&& readable(entries@.len(), count as nat) && written_statable(
                    entries@,
                    count as nat,
                ) && tiles_only(entries@) ==> resolve(root@, leaves@) == Some(entries@)
            },
            Err(e) => directories(entries@) == Err::<(Seq<u8>, Seq<u8>, nat), BuildError>(e),
        },
{
    let root: Vec<u8> = match gzip(serialize_directory(entries).as_slice()) {
        Ok(root) => root,
        Err(_) => {
            return Err(BuildError::Compression);
        },
    };
    if root.len() <= MAX_ROOT_DIR_LEN {
        let leaves: Vec<u8> = Vec::new();
        proof {
            if entries@.len() <= MAX_ENTRIES {
                lemma_stored_directory(root@, entries@);
                if tiles_only(entries@) {
                    lemma_resolve_tiles(entries@, leaves@);
                }
            }
        }
        return Ok((root, leaves, 0));
    }
    // Bigger leaves mean fewer of them, and the root holds one pointer for each.
    let mut leaf_size: usize = FIRST_LEAF_SIZE;
    loop
        invariant
            sorted(entries@),
            offsets_fit(entries@),
            forall|i: int| 0 <= i < entries@.len() ==> (#[trigger] entries@[i]).offset < u64::MAX,
            leaf_size > 0,
            directories(entries@) == split_from(entries@, leaf_size as nat),
            leaf_size_from(entries@, FIRST_LEAF_SIZE as nat) == leaf_size_from(
                entries@,
                leaf_size as nat,
            ),
        decreases entries@.len() - leaf_size,
    {
        match split_directory(entries, leaf_size) {
            None => {
                return Err(BuildError::Compression);
            },
            Some((root, leaves, count)) => {
                if root.len() <= MAX_ROOT_DIR_LEN {
                    return Ok((root, leaves, count));
                }
            },
        }
        if leaf_size > entries.len() / 2 {
            return Err(BuildError::RootTooLarge(entries.len()));
        }
        leaf_size = leaf_size * 2;
    }
}

/// Root, leaves and number of leaves for one leaf size; `None` where
/// compression fails.
fn split_directory(entries: &[Entry], size: usize) -> (res: Option<(Vec<u8>, Vec<u8>, usize)>)
    requires
        size > 0,
        sorted(entries@),
        offsets_fit(entries@),
        forall|i: int| 0 <= i < entries@.len() ==> (#[trigger] entries@[i]).offset < u64::MAX,
    ensures
        match res {
            Some((root, leaves, count)) => {
                &&& directories_with(entries@, size as nat) == Some(
                    (root@, leaves@, count as nat),
                )
                &&& readable(entries@.len(), count as nat) && leaves_statable(
                    entries@,
                    size as nat,
                    count as nat,
                ) ==> indexes_by_leaves(root@, leaves@, entries@, size as nat) && resolve(
                    root@,
                    leaves@,
                ) == Some(entries@)
            },
            None => directories_with(entries@, size as nat) is None,
        },
{
    let n: usize = entries.len();
    let mut pointers: Vec<Entry> = Vec::new();
    let mut leaves: Vec<u8> = Vec::new();
    let mut start: usize = 0;
    let ghost sz = size as nat;
    let ghost mut i: nat = 0;
    let ghost small = readable(n as nat, leaf_count(n as nat, sz));
    proof {
        reveal(split_state);
        assert(entries@.take(0) =~= Seq::<Entry>::empty());
        lemma_leaf_count(n as nat, sz, 0);
    }
    while start < n
        invariant
            size > 0,
            sz == size,
            n == entries@.len(),
            sorted(entries@),
            offsets_fit(entries@),
            forall|k: int| 0 <= k < entries@.len() ==> (#[trigger] entries@[k]).offset < u64::MAX,
            start <= n,
            start == i * sz || (start == n && i == leaf_count(n as nat, sz)),
            start < n ==> i < leaf_count(n as nat, sz),
            start == n ==> i == leaf_count(n as nat, sz),
            pointers@.len() == i,
            split_state(entries@, sz, i, pointers@, leaves@),
            small == readable(n as nat, leaf_count(n as nat, sz)),
            small && leaves_statable(entries@, sz, i) ==> resolve_entries(pointers@, leaves@) == Some(
                entries@.take(start as int),
            ) && points_to_leaves(pointers@, leaves@, entries@, sz),
        decreases n - start,
    {
        let end: usize = if size < n - start { start + size } else { n };
        let ghost before = leaves@;
        let ghost old_pointers = pointers@;
        proof {
            assert((i + 1) * sz == i * sz + sz) by (nonlinear_arith);
            assert(end == leaf_end(n as nat, sz, i));
            lemma_chunk_is_directory(entries@, start as int, end as int);
            lemma_leaf_count(n as nat, sz, i + 1);
        }
        let chunk: &[Entry] = slice_subrange(entries, start, end);
        assert(chunk@ == leaf_chunk(entries@, sz, i));
        let leaf: Vec<u8> = match gzip(serialize_directory(chunk).as_slice()) {
            Ok(leaf) => leaf,
            Err(_) => {
                proof {
                    reveal(split_state);
                    assert(split_leaves(entries@, sz, i + 1) is None);
                    lemma_split_failure(entries@, sz, i + 1, leaf_count(n as nat, sz));
                }
                return None;
            },
        };
        let pointer: Entry = Entry {
            tile_id: chunk[0].tile_id,
            offset: leaves.len() as u64,
            length: (leaf.len() as u64 % 0x1_0000_0000) as u32,
            run_length: 0,
        };
        pointers.push(pointer);
        leaves.extend_from_slice(leaf.as_slice());
        proof {
            assert(leaves@ =~= before + leaf@);
            assert(leaves.len() <= usize::MAX);
            lemma_pointer_added(entries@, sz, i, old_pointers, before, leaf@, pointer);
            if small && leaves_statable(entries@, sz, i + 1) {
                assert(leaf_blob(entries@, sz, i) == Some(leaf@));
                assert(leaves_statable(entries@, sz, i));
                lemma_readable(n as nat, sz);
                lemma_leaf_resolves(entries@, sz, i, old_pointers, before, leaf@, pointer);
            }
            i = i + 1;
        }
        start = end;
    }
    proof {
        reveal(split_state);
    }
    let root: Vec<u8> = match gzip(serialize_directory(pointers.as_slice()).as_slice()) {
        Ok(root) => root,
        Err(_) => {
            return None;
        },
    };
    proof {
        if small && leaves_statable(entries@, sz, i) {
            lemma_readable(n as nat, sz);
            lemma_stored_directory(root@, pointers@);
            assert(entries@.take(n as int) =~= entries@);
        }
    }
    let count: usize = pointers.len();
    Some((root, leaves, count))
}

/// A leaf starts before the end exactly when it is among the counted ones.
pub proof fn lemma_leaf_count(n: nat, size: nat, i: nat)
    requires
        size > 0,
    ensures
        i * size < n <==> i < leaf_count(n, size),
        i * size >= n && (i == 0 || (i - 1) * size < n) ==> i == leaf_count(n, size),
{
    let c = (n + size - 1) / size as int;
    let r = (n + size - 1) % size as int;
    vstd::arithmetic::div_mod::lemma_fundamental_div_mod(n + size - 1, size as int);
    vstd::arithmetic::div_mod::lemma_mod_bound(n + size - 1, size as int);
    assert(i * size < n <==> i < c) by (nonlinear_arith)
        requires
            size > 0,
            n + size - 1 == size * c + r,
            0 <= r < size,
    ;
    if i > 0 {
        let j = i - 1;
        assert(j * size < n <==> j < c) by (nonlinear_arith)
            requires
                size > 0,
                n + size - 1 == size * c + r,
                0 <= r < size,
        ;
    }
    assert(c >= 0) by (nonlinear_arith)
        requires
            size > 0,
            n >= 0,
            n + size - 1 == size * c + r,
            0 <= r < size,
    ;
}

/// Neither the root nor a leaf is larger than a reader accepts.
proof fn lemma_readable(n: nat, size: nat)
    requires
        size > 0,
        readable(n, leaf_count(n, size)),
    ensures
        leaf_count(n, size) <= MAX_ENTRIES,
        n <= MAX_ENTRIES || size <= MAX_ENTRIES,
{
    lemma_leaf_count(n, size, n);
    assert(n * size >= n) by (nonlinear_arith)
        requires
            size > 0,
    ;
    let c = leaf_count(n, size);
    if n > MAX_ENTRIES {
        lemma_leaf_count(n, size, (c - 1) as nat);
        assert(size < MAX_ENTRIES) by (nonlinear_arith)
            requires
                (c - 1) * size < n,
                n <= (c - 1) * MAX_ENTRIES,
                c >= 2,
        ;
    }
}

/// A leaf that was written resolves to its entries.
proof fn lemma_leaf_resolves(
    entries: Seq<Entry>,
    size: nat,
    i: nat,
    pointers: Seq<Entry>,
    leaves: Seq<u8>,
    leaf: Seq<u8>,
    pointer: Entry,
)
    requires
        size > 0,
        i * size < entries.len(),
        entries.len() <= MAX_ENTRIES || size <= MAX_ENTRIES,
        sorted(leaf_chunk(entries, size, i)),
        offsets_fit(leaf_chunk(entries, size, i)),
        pointers.len() == i,
        resolve_entries(pointers, leaves) == Some(entries.take((i * size) as int)),
        points_to_leaves(pointers, leaves, entries, size),
        gunzip_of(leaf) == Some(directory_bytes(leaf_chunk(entries, size, i))),
        leaf.len() <= u32::MAX,
        leaves.len() + leaf.len() <= u64::MAX,
        pointer.tile_id == entries[(i * size) as int].tile_id,
        pointer.offset == leaves.len(),
        pointer.length == leaf.len(),
        pointer.run_length == 0,
    ensures
        resolve_entries(pointers.push(pointer), leaves + leaf) == Some(
            entries.take(leaf_end(entries.len(), size, i)),
        ),
        points_to_leaves(pointers.push(pointer), leaves + leaf, entries, size),
{
    let chunk = leaf_chunk(entries, size, i);
    let start = (i * size) as int;
    let end = leaf_end(entries.len(), size, i);
    assert((i + 1) * size == i * size + size) by (nonlinear_arith);
    lemma_resolve_extends(pointers, leaves, leaf);
    lemma_stored_directory(leaf, chunk);
    assert((leaves + leaf).subrange(leaves.len() as int, (leaves.len() + leaf.len()) as int)
        =~= leaf);
    assert(entries.take(start) + chunk =~= entries.take(end));
    let ps = pointers.push(pointer);
    assert(ps.drop_last() =~= pointers);
    assert forall|k: int| 0 <= k < ps.len() implies points_to_leaf(
        #[trigger] ps[k],
        leaves + leaf,
        entries,
        size,
        k as nat,
    ) by {
        if k < i {
            assert(ps[k] == pointers[k]);
            assert(pointed_to(leaves + leaf, ps[k]) =~= pointed_to(leaves, ps[k]));
        }
    }
}

proof fn lemma_pointer_added(
    entries: Seq<Entry>,
    size: nat,
    i: nat,
    pointers: Seq<Entry>,
    leaves: Seq<u8>,
    leaf: Seq<u8>,
    pointer: Entry,
)
    requires
        size > 0,
        sorted(entries),
        i * size < entries.len(),
        split_state(entries, size, i, pointers, leaves),
        leaf_blob(entries, size, i) == Some(leaf),
        0 < leaf.len() <= usize::MAX,
        leaves.len() + leaf.len() <= usize::MAX,
        pointer == (Entry {
            tile_id: entries[(i * size) as int].tile_id,
            offset: leaves.len() as u64,
            length: low32(leaf.len() as u64),
            run_length: 0,
        }),
    ensures
        split_state(entries, size, i + 1, pointers.push(pointer), leaves + leaf),
{
    reveal(split_state);
    let ps = pointers.push(pointer);
    assert forall|j: int| 0 <= j < i + 1 implies (#[trigger] ps[j]).tile_id <= entries[(j
        * size) as int].tile_id by {
        if j < i {
            assert(ps[j] == pointers[j]);
        }
    }
    assert forall|j: int, k: int| 0 <= j <= k < ps.len() implies (#[trigger] ps[j]).tile_id <= (
    #[trigger] ps[k]).tile_id by {
        if k == i && j < i {
            assert(ps[j] == pointers[j]);
            assert(j * size <= i * size) by (nonlinear_arith)
                requires
                    j <= i,
                    size > 0,
            ;
            assert(0 <= j * size) by (nonlinear_arith)
                requires
                    0 <= j,
                    size > 0,
            ;
            assert(entries[(j * size) as int].tile_id <= entries[(i * size) as int].tile_id);
        }
    }
    assert forall|j: int| 0 <= j < ps.len() - 1 implies entry_end(
        #[trigger] ps[j],
    ) <= u64::MAX by {
        assert(ps[j] == pointers[j]);
    }
    assert forall|j: int|
        0 <= j < ps.len() && !(#[trigger] contiguous(
            ps,
            j,
        )) implies ps[j].offset < u64::MAX by {
        if j < i {
            assert(ps[j] == pointers[j]);
        }
    }
}

impl BuildError {
    /// The message of the error.
    pub open spec fn spec_message(self) -> Seq<char> {
        match self {
            BuildError::Compression => "directory compression failed"@,
            BuildError::RootTooLarge(n) => "cannot fit a root directory for "@ + decimal(n as nat)
                + " tile entries into 16257 bytes"@,
        }
    }

    /// The error in words.
    pub fn message(&self) -> (text: String)
        ensures
            text@ == self.spec_message(),
    {
        match self {
            BuildError::Compression => "directory compression failed".to_owned(),
            BuildError::RootTooLarge(n) => {
                let mut text: String = "cannot fit a root directory for ".to_owned();
                text.append(decimal_text(*n as u64).as_str());
                text.append(" tile entries into 16257 bytes");
                text
            },
        }
    }
}

/// The root directory of an archive and its header fit into its first 16 KiB. Where
/// all entries fit into such a root there are no leaves.
pub proof fn lemma_root_fits_in_the_first_read(entries: Seq<Entry>)
    ensures
        directories(entries) matches Ok((root, _, _)) ==> root.len() + 127 <= 16384,
        gzip_of(directory_bytes(entries)) matches Some(root) ==> (root.len() + 127 <= 16384
            ==> directories(entries) == Ok::<(Seq<u8>, Seq<u8>, nat), BuildError>(
            (root, Seq::empty(), 0),
        )),
{
    lemma_split_root_fits(entries, FIRST_LEAF_SIZE as nat);
}

proof fn lemma_split_root_fits(entries: Seq<Entry>, size: nat)
    ensures
        split_from(entries, size) matches Ok((root, _, _)) ==> root.len() <= 16257,
    decreases entries.len() - size,
{
    match directories_with(entries, size) {
        None => {},
        Some(split) => {
            if split.0.len() > MAX_ROOT_DIR_LEN && size != 0 && 2 * size <= entries.len() {
                lemma_split_root_fits(entries, 2 * size);
            }
        },
    }
}

/// An error gives the number of entries that do not fit.
pub proof fn lemma_build_error_gives_the_number(n: usize)
    ensures
        has_part(BuildError::RootTooLarge(n).spec_message(), decimal(n as nat)),
{
    lemma_has_part(
        "cannot fit a root directory for "@,
        decimal(n as nat),
        " tile entries into 16257 bytes"@,
    );
}

} // verus!
