//! Tile numbers along a Hilbert curve.
use vstd::arithmetic::div_mod::{
    lemma_div_denominator, lemma_fundamental_div_mod, lemma_fundamental_div_mod_converse,
    lemma_mod_bound,
};
use vstd::arithmetic::power2::{
    lemma2_to64, lemma2_to64_rest, lemma_pow2_adds, lemma_pow2_pos, lemma_pow2_strictly_increases,
    pow2,
};
use vstd::bits::lemma_u64_shl_is_mul;
use vstd::prelude::*;

verus! {

/// The deepest zoom whose tiles have a number.
pub const MAX_TILE_ZOOM: u8 = 31;

/// A number that belongs to no tile.
#[derive(Debug, Clone, Copy, PartialEq, Eq, Structural)]
pub enum TileIdError {
    /// The number lies past the last tile of the deepest zoom.
    BeyondZoom31(u64),
}

/// Tiles along one edge of a square of zoom `k`.
pub open spec fn side(k: nat) -> int {
    pow2(k) as int
}

/// Tiles in a square of zoom `k`.
pub open spec fn area(k: nat) -> int {
    pow2(2 * k) as int
}

/// Tiles in all zooms below `z`: 1 + 4 + 16 + ...
pub open spec fn zoom_base(z: nat) -> int
    decreases z,
{
    if z == 0 {
        0
    } else {
        zoom_base((z - 1) as nat) + area((z - 1) as nat)
    }
}

/// The place of a quadrant in the order in which the curve visits the four:
/// lower left, upper left, upper right, lower right.
pub open spec fn quadrant(rx: int, ry: int) -> int {
    if rx == 0 {
        ry
    } else {
        3 - ry
    }
}

/// A position within a quadrant, seen in the curve's own orientation there.
/// Turning twice gives the position back.
pub open spec fn turned(s: int, x: int, y: int, rx: int, ry: int) -> (int, int) {
    if ry != 0 {
        (x, y)
    } else if rx == 0 {
        (y, x)
    } else {
        (s - 1 - y, s - 1 - x)
    }
}

/// The position of the tile `(x, y)` along the curve that fills a square of
/// zoom `k`. Only the low `k` bits of the coordinates count.
pub open spec fn hilbert_index(k: nat, x: int, y: int) -> int
    decreases k,
{
    if k == 0 {
        0
    } else {
        let j = (k - 1) as nat;
        let rx = (x / side(j)) % 2;
        let ry = (y / side(j)) % 2;
        let (tx, ty) = turned(side(j), x % side(j), y % side(j), rx, ry);
        area(j) * quadrant(rx, ry) + hilbert_index(j, tx, ty)
    }
}

/// The tile at position `d` of the curve that fills a square of zoom `k`.
pub open spec fn hilbert_point(k: nat, d: int) -> (int, int)
    decreases k,
{
    if k == 0 {
        (0, 0)
    } else {
        let j = (k - 1) as nat;
        let q = (d / area(j)) % 4;
        let rx = q / 2;
        let ry = if rx == 0 { q % 2 } else { 1 - q % 2 };
        let (px, py) = hilbert_point(j, d % area(j));
        let (tx, ty) = turned(side(j), px, py, rx, ry);
        (tx + side(j) * rx, ty + side(j) * ry)
    }
}

/// The number of a tile: its position along the curve of its zoom, past every
/// tile of every lower zoom.
pub open spec fn tile_number(z: nat, x: int, y: int) -> int {
    zoom_base(z) + hilbert_index(z, x, y)
}

proof fn lemma_sizes(k: nat)
    ensures
        side(k) > 0,
        area(k) > 0,
        area(k) == side(k) * side(k),
        k > 0 ==> side(k) == 2 * side((k - 1) as nat),
        k > 0 ==> area(k) == 4 * area((k - 1) as nat),
{
    lemma_pow2_pos(k);
    lemma_pow2_pos(2 * k);
    lemma_pow2_adds(k, k);
    if k > 0 {
        let j = (k - 1) as nat;
        lemma_pow2_adds(1, j);
        lemma_pow2_adds(2, 2 * j);
        lemma2_to64();
    }
}

proof fn lemma_zoom_base_closed(z: nat)
    ensures
        3 * zoom_base(z) + 1 == area(z),
        zoom_base(z) >= 0,
    decreases z,
{
    lemma_sizes(z);
    if z > 0 {
        lemma_zoom_base_closed((z - 1) as nat);
    } else {
        lemma2_to64();
    }
}

/// Zooms follow each other without overlap.
pub proof fn lemma_zoom_base_monotonic(a: nat, b: nat)
    requires
        a <= b,
    ensures
        zoom_base(a) <= zoom_base(b),
        a < b ==> zoom_base(a) + area(a) <= zoom_base(b),
    decreases b,
{
    if a < b {
        lemma_sizes((b - 1) as nat);
        lemma_zoom_base_monotonic(a, (b - 1) as nat);
    }
}

/// Tile numbers fit in 63 bits.
pub proof fn lemma_zoom_base_fits(z: nat)
    requires
        z <= 32,
    ensures
        zoom_base(z) <= 0x5555_5555_5555_5555,
{
    lemma_machine_sizes(z);
}

proof fn lemma_machine_sizes(z: nat)
    requires
        z <= 32,
    ensures
        side(z) <= 0x1_0000_0000,
        z < 32 ==> area(z) <= 0x4000_0000_0000_0000,
        z < 32 ==> side(z) <= 0x8000_0000,
        zoom_base(z) <= 0x5555_5555_5555_5555,
{
    lemma2_to64();
    lemma2_to64_rest();
    if z < 32 {
        lemma_pow2_strictly_increases(z, 32);
        if z < 31 {
            lemma_pow2_strictly_increases(z, 31);
            lemma_pow2_strictly_increases(2 * z, 62);
        }
    }
    lemma_zoom_base_closed(31);
    lemma_zoom_base_monotonic(z, 32);
}

/// A coordinate below `2s` splits into its high bit and the rest.
proof fn lemma_split(x: int, s: int)
    requires
        s > 0,
        0 <= x < 2 * s,
    ensures
        x / s == (if x >= s { 1int } else { 0 }),
        x % s == (if x >= s { x - s } else { x }),
{
    if x >= s {
        lemma_fundamental_div_mod_converse(x, s, 1, x - s);
    } else {
        lemma_fundamental_div_mod_converse(x, s, 0, x);
    }
}

/// A position below `4a` splits into the number of the quarter and the rest.
proof fn lemma_quarter(a: int, q: int, r: int)
    requires
        a > 0,
        0 <= q < 4,
        0 <= r < a,
    ensures
        (a * q + r) / a == q,
        (a * q + r) % a == r,
        0 <= a * q + r < 4 * a,
{
    assert(a * q == q * a) by (nonlinear_arith);
    lemma_fundamental_div_mod_converse(a * q + r, a, q, r);
    assert(0 <= a * q <= 3 * a) by (nonlinear_arith)
        requires
            a > 0,
            0 <= q < 4,
    ;
}

/// Every tile of a square has a position in it, and the tile at that position
/// is the tile itself.
pub proof fn lemma_point_of_index(k: nat, x: int, y: int)
    requires
        0 <= x < side(k),
        0 <= y < side(k),
    ensures
        0 <= hilbert_index(k, x, y) < area(k),
        hilbert_point(k, hilbert_index(k, x, y)) == (x, y),
    decreases k,
{
    lemma_sizes(k);
    if k == 0 {
        lemma2_to64();
    } else {
        let j = (k - 1) as nat;
        let s = side(j);
        lemma_sizes(j);
        lemma_split(x, s);
        lemma_split(y, s);
        let rx = (x / s) % 2;
        let ry = (y / s) % 2;
        let (tx, ty) = turned(s, x % s, y % s, rx, ry);
        lemma_point_of_index(j, tx, ty);
        lemma_quarter(area(j), quadrant(rx, ry), hilbert_index(j, tx, ty));
        assert(s * rx == if rx == 1 { s } else { 0 }) by (nonlinear_arith)
            requires
                rx == 0 || rx == 1,
        ;
        assert(s * ry == if ry == 1 { s } else { 0 }) by (nonlinear_arith)
            requires
                ry == 0 || ry == 1,
        ;
    }
}

/// Every position of a square belongs to a tile in it, and the position of that
/// tile is the position itself.
pub proof fn lemma_index_of_point(k: nat, d: int)
    requires
        0 <= d < area(k),
    ensures
        0 <= hilbert_point(k, d).0 < side(k),
        0 <= hilbert_point(k, d).1 < side(k),
        hilbert_index(k, hilbert_point(k, d).0, hilbert_point(k, d).1) == d,
    decreases k,
{
    lemma_sizes(k);
    if k == 0 {
        lemma2_to64();
    } else {
        let j = (k - 1) as nat;
        let s = side(j);
        let a = area(j);
        lemma_sizes(j);
        lemma_fundamental_div_mod(d, a);
        lemma_mod_bound(d, a);
        let q = d / a;
        let r = d % a;
        assert(0 <= q < 4) by (nonlinear_arith)
            requires
                d == a * q + r,
                0 <= d < 4 * a,
                0 <= r < a,
                a > 0,
        ;
        lemma_index_of_point(j, r);
        let rx = q / 2;
        let ry = if rx == 0 { q % 2 } else { 1 - q % 2 };
        assert(q % 4 == q);
        let (px, py) = hilbert_point(j, r);
        let (tx, ty) = turned(s, px, py, rx, ry);
        assert(s * rx == if rx == 1 { s } else { 0 }) by (nonlinear_arith)
            requires
                rx == 0 || rx == 1,
        ;
        assert(s * ry == if ry == 1 { s } else { 0 }) by (nonlinear_arith)
            requires
                ry == 0 || ry == 1,
        ;
        lemma_split(tx + s * rx, s);
        lemma_split(ty + s * ry, s);
    }
}

/// The position depends on the coordinates modulo the edge of the square only.
proof fn lemma_index_wraps(k: nat, x: int, y: int)
    requires
        x >= 0,
        y >= 0,
    ensures
        hilbert_index(k, x, y) == hilbert_index(k, x % side(k), y % side(k)),
{
    lemma_sizes(k);
    if k > 0 {
        let j = (k - 1) as nat;
        let s = side(j);
        lemma_sizes(j);
        lemma_high_bit_wraps(x, s);
        lemma_high_bit_wraps(y, s);
    }
}

proof fn lemma_high_bit_wraps(x: int, s: int)
    requires
        x >= 0,
        s > 0,
    ensures
        ((x % (2 * s)) / s) % 2 == (x / s) % 2,
        (x % (2 * s)) % s == x % s,
{
    let w = x % (2 * s);
    let q = x / (2 * s);
    lemma_fundamental_div_mod(x, 2 * s);
    lemma_mod_bound(x, 2 * s);
    lemma_split(w, s);
    lemma_fundamental_div_mod(w, s);
    let h = w / s;
    let r = w % s;
    assert((2 * s) * q + w == (2 * q + h) * s + r) by (nonlinear_arith)
        requires
            w == s * h + r,
    ;
    lemma_fundamental_div_mod_converse(x, s, 2 * q + h, r);
}

/// The first tile of a square is its lower left corner and the last one its
/// lower right corner.
proof fn lemma_curve_ends(k: nat)
    ensures
        hilbert_point(k, 0) == (0int, 0int),
        hilbert_point(k, area(k) - 1) == (side(k) - 1, 0int),
    decreases k,
{
    lemma_sizes(k);
    if k == 0 {
        lemma2_to64();
    } else {
        let j = (k - 1) as nat;
        lemma_sizes(j);
        lemma_curve_ends(j);
        lemma_quarter(area(j), 0, 0);
        lemma_quarter(area(j), 3, area(j) - 1);
        assert(area(j) * 3 + area(j) - 1 == area(k) - 1);
        assert(side(j) * 0 == 0 && side(j) * 1 == side(j));
        assert(area(j) * 0 + 0 == 0);
    }
}

/// Two tiles that share an edge.
pub open spec fn adjacent(a: (int, int), b: (int, int)) -> bool {
    ||| a.0 == b.0 && (a.1 == b.1 + 1 || b.1 == a.1 + 1)
    ||| a.1 == b.1 && (a.0 == b.0 + 1 || b.0 == a.0 + 1)
}

/// The curve is continuous: tiles with consecutive numbers within a zoom share
/// an edge.
pub proof fn lemma_curve_is_continuous(k: nat, d: int)
    requires
        0 <= d,
        d + 1 < area(k),
    ensures
        adjacent(hilbert_point(k, d), hilbert_point(k, d + 1)),
    decreases k,
{
    lemma_sizes(k);
    if k == 0 {
        lemma2_to64();
    } else {
        let j = (k - 1) as nat;
        let s = side(j);
        let a = area(j);
        lemma_sizes(j);
        lemma_fundamental_div_mod(d, a);
        lemma_mod_bound(d, a);
        let q = d / a;
        let r = d % a;
        assert(0 <= q < 4) by (nonlinear_arith)
            requires
                d == a * q + r,
                0 <= d < 4 * a,
                0 <= r < a,
                a > 0,
        ;
        assert(s * 0 == 0 && s * 1 == s);
        lemma_quarter(a, q, r);
        if r + 1 < a {
            lemma_quarter(a, q, r + 1);
            assert(a * q + (r + 1) == d + 1);
            lemma_curve_is_continuous(j, r);
        } else {
            assert(r == a - 1);
            assert(q < 3) by {
                if q == 3 {
                    assert(a * 3 + a - 1 == d);
                }
            }
            assert(a * (q + 1) == a * q + a) by (nonlinear_arith);
            lemma_quarter(a, q + 1, 0);
            assert(a * (q + 1) + 0 == d + 1);
            lemma_curve_ends(j);
        }
    }
}

/// A tile's number leads back to the tile, for every tile of every zoom.
pub proof fn lemma_tile_number_round_trip(z: nat, x: int, y: int)
    requires
        0 <= x < side(z),
        0 <= y < side(z),
    ensures
        zoom_base(z) <= tile_number(z, x, y) < zoom_base(z + 1),
        hilbert_point(z, tile_number(z, x, y) - zoom_base(z)) == (x, y),
{
    lemma_point_of_index(z, x, y);
}

/// No two tiles share a number, within a zoom or across zooms.
pub proof fn lemma_tile_numbers_are_unique(z1: nat, x1: int, y1: int, z2: nat, x2: int, y2: int)
    requires
        0 <= x1 < side(z1),
        0 <= y1 < side(z1),
        0 <= x2 < side(z2),
        0 <= y2 < side(z2),
        tile_number(z1, x1, y1) == tile_number(z2, x2, y2),
    ensures
        z1 == z2,
        x1 == x2,
        y1 == y2,
{
    lemma_tile_number_round_trip(z1, x1, y1);
    lemma_tile_number_round_trip(z2, x2, y2);
    if z1 < z2 {
        lemma_zoom_base_monotonic(z1 + 1, z2);
    }
    if z2 < z1 {
        lemma_zoom_base_monotonic(z2 + 1, z1);
    }
}

/// The numbers of a zoom are contiguous: every number from the end of the zoom
/// below to the start of the zoom above belongs to a tile of this zoom.
pub proof fn lemma_tile_numbers_are_contiguous(z: nat, id: int)
    requires
        zoom_base(z) <= id < zoom_base(z + 1),
    ensures
        ({
            let (x, y) = hilbert_point(z, id - zoom_base(z));
            0 <= x < side(z) && 0 <= y < side(z) && tile_number(z, x, y) == id
        }),
{
    lemma_index_of_point(z, id - zoom_base(z));
}

/// The number of the tile `(x, y)` of zoom `z`.
pub fn tile_id(z: u8, x: u32, y: u32) -> (id: u64)
    requires
        z <= MAX_TILE_ZOOM,
    ensures
        id == tile_number(z as nat, x as int, y as int),
        zoom_base(z as nat) <= id < zoom_base(z as nat + 1),
{
    proof {
        lemma_machine_sizes(z as nat);
        lemma_sizes(z as nat);
        lemma_zoom_base_closed(z as nat);
        lemma_u64_shl_is_mul(1, (2 * z) as u64);
        lemma_u64_shl_is_mul(1, z as u64);
        lemma_index_wraps(z as nat, x as int, y as int);
        lemma_mod_bound(x as int, side(z as nat));
        lemma_mod_bound(y as int, side(z as nat));
        lemma_point_of_index(z as nat, x as int % side(z as nat), y as int % side(z as nat));
    }
    let base: u64 = ((1u64 << (2 * z as u64)) - 1) / 3;
    let n: u64 = 1u64 << (z as u64);
    let mut tx: u64 = x as u64 % n;
    let mut ty: u64 = y as u64 % n;
    let mut s: u64 = n / 2;
    let mut d: u64 = 0;
    let ghost mut k: nat = z as nat;
    let ghost goal = hilbert_index(z as nat, x as int, y as int);
    while s > 0
        invariant
            k <= 31,
            k == 0 ==> s == 0,
            k > 0 ==> s == side((k - 1) as nat),
            0 <= tx < side(k),
            0 <= ty < side(k),
            d + hilbert_index(k, tx as int, ty as int) == goal,
            goal <= 0x4000_0000_0000_0000,
        decreases s,
    {
        let ghost j = (k - 1) as nat;
        let ghost x0 = tx as int;
        let ghost y0 = ty as int;
        proof {
            lemma_sizes(k);
            lemma_sizes(j);
            lemma_machine_sizes(k);
            lemma_split(tx as int, s as int);
            lemma_split(ty as int, s as int);
        }
        let rx: u64 = if tx >= s { 1 } else { 0 };
        let ry: u64 = if ty >= s { 1 } else { 0 };
        if tx >= s {
            tx = tx - s;
        }
        if ty >= s {
            ty = ty - s;
        }
        let quarter: u64 = if rx == 0 { ry } else { 3 - ry };
        if ry == 0 {
            let (a, b): (u64, u64) = (tx, ty);
            if rx == 1 {
                tx = s - 1 - b;
                ty = s - 1 - a;
            } else {
                tx = b;
                ty = a;
            }
        }
        proof {
            lemma_point_of_index(j, tx as int, ty as int);
            assert(s * s <= 0x1000_0000_0000_0000) by (nonlinear_arith)
                requires
                    0 < s <= 0x4000_0000,
            ;
            assert(s as int * s as int * quarter as int == area(j) * quadrant(rx as int, ry as int));
        }
        d = d + s * s * quarter;
        s = s / 2;
        proof {
            if j > 0 {
                lemma_sizes(j);
            } else {
                lemma2_to64();
            }
            k = j;
        }
    }
    proof {
        if k > 0 {
            lemma_sizes((k - 1) as nat);
        }
    }
    base + d
}

/// The tile at position `d` of the curve of zoom `z`, with the zoom.
pub fn hilbert_to_xy(z: u8, d: u64) -> (tile: (u8, u32, u32))
    requires
        z <= MAX_TILE_ZOOM,
    ensures
        tile.0 == z,
        (tile.1 as int, tile.2 as int) == hilbert_point(z as nat, d as int),
{
    proof {
        lemma_machine_sizes(z as nat);
        lemma_u64_shl_is_mul(1, z as u64);
        lemma2_to64();
    }
    let n: u64 = 1u64 << (z as u64);
    let mut x: u64 = 0;
    let mut y: u64 = 0;
    let mut s: u64 = 1;
    let mut rest: u64 = d;
    let ghost mut k: nat = 0;
    proof {
        assert(d as int % 1 == 0 && d as int / 1 == d as int);
    }
    while s < n
        invariant
            k <= z <= 31,
            n == side(z as nat),
            n <= 0x8000_0000,
            s == side(k),
            0 <= x < s,
            0 <= y < s,
            rest as int == d as int / area(k),
            (x as int, y as int) == hilbert_point(k, d as int % area(k)),
        decreases z - k,
    {
        let ghost px = x as int;
        let ghost py = y as int;
        proof {
            lemma_sizes(k);
            lemma_sizes(k + 1);
            if k >= z {
                assert(k == z);
            }
            lemma_point_step(k, d as int);
        }
        let quarter: u64 = rest % 4;
        let rx: u64 = quarter / 2;
        let ry: u64 = if rx == 0 { quarter % 2 } else { 1 - quarter % 2 };
        if ry == 0 {
            let (a, b): (u64, u64) = (x, y);
            if rx == 1 {
                x = s - 1 - b;
                y = s - 1 - a;
            } else {
                x = b;
                y = a;
            }
        }
        if rx == 1 {
            x = x + s;
        }
        if ry == 1 {
            y = y + s;
        }
        proof {
            assert(s * 0 == 0 && s * 1 == s);
            assert(side(k) * rx == if rx == 1 { side(k) } else { 0 });
            assert(side(k) * ry == if ry == 1 { side(k) } else { 0 });
            lemma_div_denominator(d as int, area(k), 4);
            assert(area(k) * 4 == area(k + 1));
        }
        rest = rest / 4;
        s = s * 2;
        proof {
            k = k + 1;
        }
    }
    proof {
        if k < z {
            lemma_pow2_strictly_increases(k, z as nat);
        }
        lemma_point_wraps(z as nat, d as int);
    }
    (z, x as u32, y as u32)
}

/// The position that matters at zoom `k + 1` is a quarter of zoom `k` and the
/// rest within it.
proof fn lemma_point_step(k: nat, d: int)
    requires
        d >= 0,
    ensures
        ((d % area(k + 1)) / area(k)) % 4 == (d / area(k)) % 4,
        (d % area(k + 1)) % area(k) == d % area(k),
{
    lemma_sizes(k);
    lemma_sizes(k + 1);
    let a = area(k);
    let w = d % (4 * a);
    let q = d / (4 * a);
    lemma_fundamental_div_mod(d, 4 * a);
    lemma_mod_bound(d, 4 * a);
    lemma_fundamental_div_mod(w, a);
    lemma_mod_bound(w, a);
    let h = w / a;
    let r = w % a;
    assert((4 * a) * q + w == (4 * q + h) * a + r) by (nonlinear_arith)
        requires
            w == a * h + r,
    ;
    lemma_fundamental_div_mod_converse(d, a, 4 * q + h, r);
    assert((4 * q + h) % 4 == h % 4);
}

/// Only the position modulo the area of the square counts.
proof fn lemma_point_wraps(k: nat, d: int)
    requires
        d >= 0,
    ensures
        hilbert_point(k, d) == hilbert_point(k, d % area(k)),
{
    if k > 0 {
        lemma_point_step((k - 1) as nat, d);
    }
}

/// The tile that a number belongs to: the inverse of `tile_id`.
pub fn tile_id_to_zxy(id: u64) -> (res: Result<(u8, u32, u32), TileIdError>)
    ensures
        res is Ok <==> id < zoom_base(32),
        match res {
            Ok((z, x, y)) => {
                &&& z <= MAX_TILE_ZOOM
                &&& zoom_base(z as nat) <= id < zoom_base(z as nat + 1)
                &&& x < side(z as nat)
                &&& y < side(z as nat)
                &&& id == tile_number(z as nat, x as int, y as int)
            },
            Err(e) => e == TileIdError::BeyondZoom31(id),
        },
{
    let mut acc: u64 = 0;
    let mut z: u8 = 0;
    while z <= 31
        invariant
            z <= 32,
            acc == zoom_base(z as nat),
            acc <= id,
        decreases 32 - z,
    {
        proof {
            lemma_machine_sizes(z as nat);
            lemma_machine_sizes(z as nat + 1);
            lemma_u64_shl_is_mul(1, (2 * z) as u64);
            lemma_zoom_base_monotonic(z as nat + 1, 32);
        }
        let tiles_at_zoom: u64 = 1u64 << (2 * z as u64);
        if id < acc + tiles_at_zoom {
            proof {
                lemma_index_of_point(z as nat, id - acc);
            }
            return Ok(hilbert_to_xy(z, id - acc));
        }
        acc = acc + tiles_at_zoom;
        z = z + 1;
    }
    Err(TileIdError::BeyondZoom31(id))
}

} // verus!
