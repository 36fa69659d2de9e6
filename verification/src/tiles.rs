//! Tile coordinates, and which tiles cover an area.
use crate::order::{compare_numbers, distinct_numbers, strictly_ascending, Comparison};
use crate::pmtiles::export::tiles_across;
use crate::pmtiles::tile_id::side;
use vstd::arithmetic::power2::pow2;
use vstd::prelude::*;

verus! {

/// A tile: its zoom, its column from the west and its row from the north.
#[derive(Debug, Clone, Copy, PartialEq, Eq, Hash, Structural)]
pub struct TileCoord {
    pub z: u8,
    pub x: u32,
    pub y: u32,
}

impl TileCoord {
    /// The tile lies in the grid of its zoom.
    pub open spec fn in_grid(self) -> bool {
        self.x < side(self.z as nat) && self.y < side(self.z as nat)
    }
}

/// The columns and rows that an area reaches at one zoom. They may lie outside
/// the grid.
#[derive(Debug, Clone, Copy, PartialEq, Eq, Structural)]
pub struct TileSpan {
    pub z: u8,
    pub x_min: u32,
    pub x_max: u32,
    pub y_min: u32,
    pub y_max: u32,
}

/// A column or row moved into the grid.
pub open spec fn clamped(z: u8, v: u32) -> int {
    if v < side(z as nat) {
        v as int
    } else {
        side(z as nat) - 1
    }
}

/// How many columns or rows there are from one to another, both counted.
pub open spec fn extent_of(low: int, high: int) -> nat {
    if low <= high {
        (high - low + 1) as nat
    } else {
        0
    }
}

/// The tiles of one column, `n` of them from row `y` on.
pub open spec fn column(z: u8, x: int, y: int, n: nat) -> Seq<TileCoord> {
    Seq::new(n, |i: int| TileCoord { z, x: x as u32, y: (y + i) as u32 })
}

/// The tiles of `m` columns from `x` on.
pub open spec fn columns(z: u8, x: int, m: nat, y: int, n: nat) -> Seq<TileCoord>
    decreases m,
{
    if m == 0 {
        Seq::empty()
    } else {
        columns(z, x, (m - 1) as nat, y, n) + column(z, x + m - 1, y, n)
    }
}

/// The tiles that a span covers, column by column.
pub open spec fn span_tiles(span: TileSpan) -> Seq<TileCoord> {
    let x = clamped(span.z, span.x_min);
    let y = clamped(span.z, span.y_min);
    columns(
        span.z,
        x,
        extent_of(x, clamped(span.z, span.x_max)),
        y,
        extent_of(y, clamped(span.z, span.y_max)),
    )
}

/// The tiles that spans cover, one after the other.
pub open spec fn spans_tiles(spans: Seq<TileSpan>) -> Seq<TileCoord>
    decreases spans.len(),
{
    if spans.len() == 0 {
        Seq::empty()
    } else {
        spans_tiles(spans.drop_last()) + span_tiles(spans.last())
    }
}

fn clamp(z: u8, v: u32) -> (c: u32)
    requires
        z <= 31,
    ensures
        c == clamped(z, v),
        c < side(z as nat),
{
    let edge: u32 = tiles_across(z);
    proof {
        vstd::arithmetic::power2::lemma_pow2_pos(z as nat);
    }
    if v < edge {
        v
    } else {
        edge - 1
    }
}

/// All tiles that an area covers, given the columns and rows that it reaches at
/// each zoom. Columns and rows outside the grid count as its edge.
pub fn tiles_for_bounds(spans: &Vec<TileSpan>) -> (tiles: Vec<TileCoord>)
    requires
        forall|i: int| 0 <= i < spans@.len() ==> (#[trigger] spans@[i]).z <= 31,
    ensures
        tiles@ == spans_tiles(spans@),
{
    let mut tiles: Vec<TileCoord> = Vec::new();
    assert(spans@.take(0) =~= Seq::<TileSpan>::empty());
    for i in 0..spans.len()
        invariant
            forall|k: int| 0 <= k < spans@.len() ==> (#[trigger] spans@[k]).z <= 31,
            tiles@ == spans_tiles(spans@.take(i as int)),
    {
        proof {
            assert(spans@.take(i + 1).last() == spans@[i as int]);
            assert(spans@.take(i + 1).drop_last() =~= spans@.take(i as int));
        }
        push_span(&mut tiles, spans[i]);
    }
    assert(spans@.take(spans@.len() as int) =~= spans@);
    tiles
}

fn push_span(tiles: &mut Vec<TileCoord>, span: TileSpan)
    requires
        span.z <= 31,
    ensures
        final(tiles)@ == old(tiles)@ + span_tiles(span),
{
    let ghost before = tiles@;
    let z: u8 = span.z;
    let x_min: u32 = clamp(z, span.x_min);
    let x_max: u32 = clamp(z, span.x_max);
    let y_min: u32 = clamp(z, span.y_min);
    let y_max: u32 = clamp(z, span.y_max);
    let ghost n = extent_of(y_min as int, y_max as int);
    proof {
        vstd::arithmetic::power2::lemma2_to64();
        if z < 31 {
            vstd::arithmetic::power2::lemma_pow2_strictly_increases(z as nat, 31);
        }
        assert(before + columns(z, x_min as int, 0, y_min as int, n) =~= before);
    }
    let mut x: u32 = x_min;
    while x <= x_max
        invariant
            x_min <= x,
            x <= x_max + 1 || x == x_min,
            x_max < 0x8000_0000,
            y_max < 0x8000_0000,
            n == extent_of(y_min as int, y_max as int),
            tiles@ == before + columns(
                z,
                x_min as int,
                (x - x_min) as nat,
                y_min as int,
                n,
            ),
        decreases x_max + 1 - x,
    {
        let ghost held = tiles@;
        assert(held + column(z, x as int, y_min as int, 0) =~= held);
        let mut y: u32 = y_min;
        while y <= y_max
            invariant
                y_min <= y,
                y <= y_max + 1 || y == y_min,
                y_max < 0x8000_0000,
                tiles@ == held + column(z, x as int, y_min as int, (y - y_min) as nat),
            decreases y_max + 1 - y,
        {
            tiles.push(TileCoord { z, x, y });
            assert(tiles@ =~= held + column(z, x as int, y_min as int, (y + 1 - y_min) as nat));
            y = y + 1;
        }
        assert(tiles@ =~= before + columns(
            z,
            x_min as int,
            (x + 1 - x_min) as nat,
            y_min as int,
            n,
        ));
        x = x + 1;
    }
    assert(x - x_min == extent_of(x_min as int, x_max as int));
}

proof fn lemma_columns_members(z: u8, x: int, m: nat, y: int, n: nat, t: TileCoord)
    requires
        0 <= x,
        x + m <= 0x8000_0000,
        0 <= y,
        y + n <= 0x8000_0000,
    ensures
        columns(z, x, m, y, n).contains(t) <==> t.z == z && x <= t.x < x + m && y <= t.y < y + n,
    decreases m,
{
    if m > 0 {
        let j = (m - 1) as nat;
        lemma_columns_members(z, x, j, y, n, t);
        let front = columns(z, x, j, y, n);
        let last = column(z, x + j, y, n);
        let all = columns(z, x, m, y, n);
        if all.contains(t) {
            let k = choose|k: int| 0 <= k < all.len() && all[k] == t;
            if k < front.len() {
                assert(front[k] == t);
            } else {
                assert(last[k - front.len()] == t);
            }
        }
        if front.contains(t) {
            let k = choose|k: int| 0 <= k < front.len() && front[k] == t;
            assert(all[k] == t);
        }
        if t.z == z && t.x == x + j && y <= t.y < y + n {
            assert(last[t.y - y] == t);
            assert(all[front.len() + (t.y - y)] == t);
        }
    }
}

/// A span covers exactly the tiles between its edges, and all of them lie in
/// the grid.
pub proof fn lemma_span_covers(span: TileSpan, t: TileCoord)
    requires
        span.z <= 31,
    ensures
        span_tiles(span).contains(t) <==> t.z == span.z && clamped(span.z, span.x_min) <= t.x
            <= clamped(span.z, span.x_max) && clamped(span.z, span.y_min) <= t.y <= clamped(
            span.z,
            span.y_max,
        ),
        span_tiles(span).contains(t) ==> t.in_grid(),
{
    vstd::arithmetic::power2::lemma2_to64();
    vstd::arithmetic::power2::lemma_pow2_pos(span.z as nat);
    if span.z < 31 {
        vstd::arithmetic::power2::lemma_pow2_strictly_increases(span.z as nat, 31);
    }
    let x = clamped(span.z, span.x_min);
    let y = clamped(span.z, span.y_min);
    lemma_columns_members(
        span.z,
        x,
        extent_of(x, clamped(span.z, span.x_max)),
        y,
        extent_of(y, clamped(span.z, span.y_max)),
        t,
    );
}

/// Spans cover exactly the tiles that one of them covers.
pub proof fn lemma_spans_cover(spans: Seq<TileSpan>, t: TileCoord)
    ensures
        spans_tiles(spans).contains(t) <==> exists|i: int|
            0 <= i < spans.len() && span_tiles(#[trigger] spans[i]).contains(t),
    decreases spans.len(),
{
    let all = spans_tiles(spans);
    if spans.len() > 0 {
        let rest = spans.drop_last();
        let front = spans_tiles(rest);
        let last = span_tiles(spans.last());
        let n = spans.len() - 1;
        lemma_spans_cover(rest, t);
        if all.contains(t) {
            let k = choose|k: int| 0 <= k < all.len() && all[k] == t;
            if k < front.len() {
                assert(front[k] == t);
                let i = choose|i: int|
                    0 <= i < rest.len() && span_tiles(#[trigger] rest[i]).contains(t);
                assert(span_tiles(spans[i]).contains(t));
            } else {
                assert(last[k - front.len()] == t);
                assert(span_tiles(spans[n]).contains(t));
            }
        }
        if exists|i: int| 0 <= i < spans.len() && span_tiles(#[trigger] spans[i]).contains(t) {
            let i = choose|i: int|
                0 <= i < spans.len() && span_tiles(#[trigger] spans[i]).contains(t);
            if i < n {
                assert(span_tiles(rest[i]).contains(t));
                let k = choose|k: int| 0 <= k < front.len() && front[k] == t;
                assert(all[k] == t);
            } else {
                let k = choose|k: int| 0 <= k < last.len() && last[k] == t;
                assert(all[front.len() + k] == t);
            }
        }
    }
}

/// The order of tiles: by zoom, then by column, then by row.
pub open spec fn tile_key(t: TileCoord) -> u128 {
    (t.z * 0x1_0000_0000_0000_0000 + t.x * 0x1_0000_0000 + t.y) as u128
}

/// Tiles in ascending order, none twice.
pub open spec fn ascending_tiles(tiles: Seq<TileCoord>) -> bool {
    forall|i: int, j: int|
        0 <= i < j < tiles.len() ==> tile_key(#[trigger] tiles[i]) < tile_key(#[trigger] tiles[j])
}

/// No two tiles share a place in the order.
pub proof fn lemma_tile_key_injective(a: TileCoord, b: TileCoord)
    requires
        tile_key(a) == tile_key(b),
    ensures
        a == b,
{
}

fn key_of(t: &TileCoord) -> (key: u128)
    ensures
        key == tile_key(*t),
{
    t.z as u128 * 0x1_0000_0000_0000_0000 + t.x as u128 * 0x1_0000_0000 + t.y as u128
}

fn tile_of(key: u128, Ghost(t): Ghost<TileCoord>) -> (tile: TileCoord)
    requires
        key == tile_key(t),
    ensures
        tile == t,
{
    TileCoord {
        z: (key / 0x1_0000_0000_0000_0000) as u8,
        x: (key / 0x1_0000_0000 % 0x1_0000_0000) as u32,
        y: (key % 0x1_0000_0000) as u32,
    }
}

/// The places of some tiles in the order.
spec fn tile_keys(tiles: Seq<TileCoord>) -> Seq<u128> {
    Seq::new(tiles.len(), |i: int| tile_key(tiles[i]))
}

proof fn lemma_key_members(tiles: Seq<TileCoord>, t: TileCoord)
    ensures
        tile_keys(tiles).contains(tile_key(t)) <==> tiles.contains(t),
{
    let keys = tile_keys(tiles);
    if keys.contains(tile_key(t)) {
        let k = choose|k: int| 0 <= k < keys.len() && keys[k] == tile_key(t);
        lemma_tile_key_injective(tiles[k], t);
    }
    if tiles.contains(t) {
        let k = choose|k: int| 0 <= k < tiles.len() && tiles[k] == t;
        assert(keys[k] == tile_key(t));
    }
}

/// The places of some tiles in the order, each once and in ascending order.
fn distinct_keys(tiles: &Vec<TileCoord>) -> (numbers: Vec<u128>)
    ensures
        strictly_ascending(numbers@),
        forall|v: u128| #[trigger] numbers@.contains(v) <==> tile_keys(tiles@).contains(v),
{
    let mut keys: Vec<u128> = Vec::with_capacity(tiles.len());
    for i in 0..tiles.len()
        invariant
            keys@ == tile_keys(tiles@).take(i as int),
    {
        keys.push(key_of(&tiles[i]));
        assert(keys@ =~= tile_keys(tiles@).take(i as int + 1));
    }
    assert(keys@ =~= tile_keys(tiles@));
    distinct_numbers(keys)
}

/// The tiles at some places in the order, given tiles among which they are.
fn tiles_of_keys(numbers: &Vec<u128>, Ghost(among): Ghost<Seq<TileCoord>>) -> (tiles: Vec<
    TileCoord,
>)
    requires
        strictly_ascending(numbers@),
        forall|v: u128| #[trigger] numbers@.contains(v) ==> tile_keys(among).contains(v),
    ensures
        tile_keys(tiles@) == numbers@,
        ascending_tiles(tiles@),
        forall|t: TileCoord| #[trigger] tiles@.contains(t) <==> numbers@.contains(tile_key(t)),
{
    let mut tiles: Vec<TileCoord> = Vec::with_capacity(numbers.len());
    for i in 0..numbers.len()
        invariant
            forall|v: u128| #[trigger] numbers@.contains(v) ==> tile_keys(among).contains(v),
            tile_keys(tiles@) == numbers@.take(i as int),
    {
        let ghost held = tiles@;
        let ghost key = numbers@[i as int];
        assert(numbers@.contains(key));
        let ghost k = choose|k: int| 0 <= k < among.len() && tile_keys(among)[k] == key;
        tiles.push(tile_of(numbers[i], Ghost(among[k])));
        assert(tile_keys(tiles@) =~= tile_keys(held).push(key));
        assert(numbers@.take(i as int + 1) =~= numbers@.take(i as int).push(key));
    }
    proof {
        assert(numbers@.take(numbers@.len() as int) =~= numbers@);
        assert forall|i: int, j: int| 0 <= i < j < tiles@.len() implies tile_key(
            #[trigger] tiles@[i],
        ) < tile_key(#[trigger] tiles@[j]) by {
            assert(numbers@[i] == tile_key(tiles@[i]) && numbers@[j] == tile_key(tiles@[j]));
        }
        assert forall|t: TileCoord| #[trigger] tiles@.contains(t) <==> numbers@.contains(
            tile_key(t),
        ) by {
            lemma_key_members(tiles@, t);
        }
    }
    tiles
}

/// Put tiles in order and keep each once.
pub fn distinct_tiles(tiles: &Vec<TileCoord>) -> (distinct: Vec<TileCoord>)
    ensures
        ascending_tiles(distinct@),
        forall|t: TileCoord| #[trigger] distinct@.contains(t) <==> tiles@.contains(t),
{
    let numbers: Vec<u128> = distinct_keys(tiles);
    let distinct: Vec<TileCoord> = tiles_of_keys(&numbers, Ghost(tiles@));
    proof {
        assert forall|t: TileCoord| #[trigger] distinct@.contains(t) <==> tiles@.contains(t) by {
            lemma_key_members(tiles@, t);
            assert(numbers@.contains(tile_key(t)) <==> tile_keys(tiles@).contains(tile_key(t)));
        }
    }
    distinct
}

/// The tiles are those that changes in some areas make stale: all that one of the
/// areas covers, in order, each once.
pub open spec fn stale_tiles(spans: Seq<TileSpan>, tiles: Seq<TileCoord>) -> bool {
    &&& ascending_tiles(tiles)
    &&& forall|t: TileCoord| #[trigger]
        tiles.contains(t) <==> exists|i: int|
            0 <= i < spans.len() && span_tiles(#[trigger] spans[i]).contains(t)
}

/// The tiles that a batch of changes makes stale.
pub fn affected_tiles(spans: &Vec<TileSpan>) -> (tiles: Vec<TileCoord>)
    requires
        forall|i: int| 0 <= i < spans@.len() ==> (#[trigger] spans@[i]).z <= 31,
    ensures
        stale_tiles(spans@, tiles@),
{
    let all: Vec<TileCoord> = tiles_for_bounds(spans);
    let tiles: Vec<TileCoord> = distinct_tiles(&all);
    proof {
        assert forall|t: TileCoord| #[trigger] tiles@.contains(t) <==> exists|i: int|
            0 <= i < spans@.len() && span_tiles(#[trigger] spans@[i]).contains(t) by {
            lemma_spans_cover(spans@, t);
        }
    }
    tiles
}

/// The tiles of two stores, apart and shared, each list in ascending order.
#[derive(Debug)]
pub struct TileComparison {
    pub only_a: Vec<TileCoord>,
    pub only_b: Vec<TileCoord>,
    pub both: Vec<TileCoord>,
}

/// Compare the tiles of two stores.
pub fn compare_tiles(a: &Vec<TileCoord>, b: &Vec<TileCoord>) -> (c: TileComparison)
    ensures
        ascending_tiles(c.only_a@),
        ascending_tiles(c.only_b@),
        ascending_tiles(c.both@),
        forall|t: TileCoord| #[trigger]
            c.only_a@.contains(t) <==> a@.contains(t) && !b@.contains(t),
        forall|t: TileCoord| #[trigger]
            c.only_b@.contains(t) <==> b@.contains(t) && !a@.contains(t),
        forall|t: TileCoord| #[trigger] c.both@.contains(t) <==> a@.contains(t) && b@.contains(t),
{
    let ka: Vec<u128> = distinct_keys(a);
    let kb: Vec<u128> = distinct_keys(b);
    let c: Comparison = compare_numbers(&ka, &kb);
    proof {
        assert(ka@.take(ka@.len() as int) =~= ka@);
        assert(kb@.take(kb@.len() as int) =~= kb@);
    }
    let only_a: Vec<TileCoord> = tiles_of_keys(&c.only_a, Ghost(a@));
    let only_b: Vec<TileCoord> = tiles_of_keys(&c.only_b, Ghost(b@));
    let both: Vec<TileCoord> = tiles_of_keys(&c.both, Ghost(a@));
    proof {
        assert forall|t: TileCoord|
            (#[trigger] ka@.contains(tile_key(t)) <==> a@.contains(t)) by {
            lemma_key_members(a@, t);
        }
        assert forall|t: TileCoord|
            (#[trigger] kb@.contains(tile_key(t)) <==> b@.contains(t)) by {
            lemma_key_members(b@, t);
        }
        assert forall|t: TileCoord| #[trigger] only_a@.contains(t) <==> a@.contains(t)
            && !b@.contains(t) by {
            assert(c.only_a@.contains(tile_key(t)) <==> ka@.contains(tile_key(t)) && !kb@.contains(
                tile_key(t),
            ));
        }
        assert forall|t: TileCoord| #[trigger] only_b@.contains(t) <==> b@.contains(t)
            && !a@.contains(t) by {
            assert(c.only_b@.contains(tile_key(t)) <==> kb@.contains(tile_key(t)) && !ka@.contains(
                tile_key(t),
            ));
        }
        assert forall|t: TileCoord| #[trigger] both@.contains(t) <==> a@.contains(t) && b@.contains(
            t,
        ) by {
            assert(c.both@.contains(tile_key(t)) <==> ka@.contains(tile_key(t)) && kb@.contains(
                tile_key(t),
            ));
        }
    }
    TileComparison { only_a, only_b, both }
}

proof fn lemma_columns_count(z: u8, x: int, m: nat, y: int, n: nat)
    ensures
        columns(z, x, m, y, n).len() == m * n,
    decreases m,
{
    if m > 0 {
        lemma_columns_count(z, x, (m - 1) as nat, y, n);
        assert((m - 1) * n + n == m * n) by (nonlinear_arith);
    } else {
        assert(0 * n == 0) by (nonlinear_arith);
    }
}

/// A tile of the grid is covered where an area's columns and rows reach it, or
/// where they begin beyond the grid's edge and the tile lies on that edge. Nothing
/// outside the grid is covered.
pub proof fn lemma_area_is_covered(span: TileSpan, t: TileCoord)
    requires
        span.z <= 31,
    ensures
        span_tiles(span).contains(t) <==> {
            &&& t.z == span.z
            &&& t.x < pow2(span.z as nat)
            &&& t.y < pow2(span.z as nat)
            &&& t.x <= span.x_max
            &&& t.y <= span.y_max
            &&& span.x_min <= t.x || t.x + 1 == pow2(span.z as nat)
            &&& span.y_min <= t.y || t.y + 1 == pow2(span.z as nat)
        },
{
    vstd::arithmetic::power2::lemma_pow2_pos(span.z as nat);
    lemma_span_covers(span, t);
}

/// An area inside the grid has as many tiles as its columns times its rows, so
/// that none of them stands twice.
pub proof fn lemma_area_is_covered_once(span: TileSpan)
    requires
        span.z <= 31,
        span.x_min <= span.x_max < pow2(span.z as nat),
        span.y_min <= span.y_max < pow2(span.z as nat),
    ensures
        span_tiles(span).len() == (span.x_max - span.x_min + 1) * (span.y_max - span.y_min + 1),
{
    lemma_columns_count(
        span.z,
        span.x_min as int,
        (span.x_max - span.x_min + 1) as nat,
        span.y_min as int,
        (span.y_max - span.y_min + 1) as nat,
    );
}

/// Tiles are ordered by zoom, then by column, then by row.
pub proof fn lemma_tiles_are_ordered(a: TileCoord, b: TileCoord)
    ensures
        tile_key(a) < tile_key(b) <==> a.z < b.z || a.z == b.z && (a.x < b.x || a.x == b.x && a.y
            < b.y),
{
}

/// Stale tiles are exactly those of the grid that one of the areas reaches, ordered
/// by zoom, column and row, and none twice.
pub proof fn lemma_stale_tiles_are_those_reached(spans: Seq<TileSpan>, tiles: Seq<TileCoord>)
    requires
        forall|i: int| 0 <= i < spans.len() ==> (#[trigger] spans[i]).z <= 31,
        stale_tiles(spans, tiles),
    ensures
        forall|i: int, j: int|
            0 <= i < j < tiles.len() ==> {
                let (a, b) = (#[trigger] tiles[i], #[trigger] tiles[j]);
                a.z < b.z || a.z == b.z && (a.x < b.x || a.x == b.x && a.y < b.y)
            },
        forall|i: int, t: TileCoord|
            #![trigger spans[i], tiles.contains(t)]
            0 <= i < spans.len() && t.z == spans[i].z && spans[i].x_min <= t.x <= spans[i].x_max
                && spans[i].y_min <= t.y <= spans[i].y_max && t.x < pow2(t.z as nat) && t.y < pow2(
                t.z as nat,
            ) ==> tiles.contains(t),
        forall|t: TileCoord| #[trigger]
            tiles.contains(t) ==> exists|i: int|
                0 <= i < spans.len() && t.z == (#[trigger] spans[i]).z && t.x <= spans[i].x_max
                    && t.y <= spans[i].y_max && (spans[i].x_min <= t.x || t.x + 1 == pow2(
                    t.z as nat,
                )) && (spans[i].y_min <= t.y || t.y + 1 == pow2(t.z as nat)),
{
    assert forall|i: int, j: int| 0 <= i < j < tiles.len() implies {
        let (a, b) = (#[trigger] tiles[i], #[trigger] tiles[j]);
        a.z < b.z || a.z == b.z && (a.x < b.x || a.x == b.x && a.y < b.y)
    } by {
        lemma_tiles_are_ordered(tiles[i], tiles[j]);
    }
    assert forall|i: int, t: TileCoord|
        #![trigger spans[i], tiles.contains(t)]
        0 <= i < spans.len() && t.z == spans[i].z && spans[i].x_min <= t.x <= spans[i].x_max
            && spans[i].y_min <= t.y <= spans[i].y_max && t.x < pow2(t.z as nat) && t.y < pow2(
            t.z as nat,
        ) implies tiles.contains(t) by {
        lemma_area_is_covered(spans[i], t);
        assert(span_tiles(spans[i]).contains(t));
    }
    assert forall|t: TileCoord| #[trigger] tiles.contains(t) implies exists|i: int|
        0 <= i < spans.len() && t.z == (#[trigger] spans[i]).z && t.x <= spans[i].x_max && t.y
            <= spans[i].y_max && (spans[i].x_min <= t.x || t.x + 1 == pow2(t.z as nat)) && (
        spans[i].y_min <= t.y || t.y + 1 == pow2(t.z as nat)) by {
        let i = choose|i: int| 0 <= i < spans.len() && span_tiles(#[trigger] spans[i]).contains(t);
        lemma_area_is_covered(spans[i], t);
    }
}

} // verus!
