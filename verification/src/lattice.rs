//! The geometry of the two regular lattices: square tiles and flat-top
//! hexagons. Both are functions of the canvas size and the tile size alone.

use vstd::prelude::*;
use vstd::arithmetic::div_mod::{lemma_fundamental_div_mod, lemma_fundamental_div_mod_converse};
use crate::arith::lemma_quotient_is;
use crate::geometry::{squared, Point};

verus! {

/// A square tile: its top-left corner and the length of its sides. A tile
/// may reach over the right or the bottom edge of the canvas.
#[derive(Clone, Copy, Debug, PartialEq, Eq, Structural)]
pub struct Tile {
    pub left: u32,
    pub top: u32,
    pub side: u32,
}

impl Tile {
    /// Whether the pixel at `(x, y)` lies on this tile.
    pub open spec fn spec_covers(self, x: int, y: int) -> bool {
        self.left <= x < self.left + self.side && self.top <= y < self.top + self.side
    }
}

/// How many tiles of side `size` it takes to span `extent` pixels: the
/// quotient, rounded up.
pub open spec fn spec_tiles_across(extent: u32, size: u32) -> int {
    if extent == 0 {
        0
    } else {
        (extent - 1) / (size as int) + 1
    }
}

/// The tile in column `i` and row `j` of the lattice.
pub open spec fn square_tile(i: int, j: int, size: u32) -> Tile {
    Tile { left: (i * size) as u32, top: (j * size) as u32, side: size }
}

/// The tiles of the square lattice on a canvas of the given size, column
/// after column and, in a column, from the top down.
pub open spec fn square_tiles(width: u32, height: u32, size: u32) -> Seq<Tile> {
    let rows = spec_tiles_across(height, size);
    Seq::new(
        (spec_tiles_across(width, size) * rows) as nat,
        |n: int| square_tile(n / rows, n % rows, size),
    )
}

/// The place in [`square_tiles`] of the tile that the pixel at `(x, y)` lies on.
pub open spec fn tile_number(x: int, y: int, height: u32, size: u32) -> int {
    (x / (size as int)) * spec_tiles_across(height, size) + y / (size as int)
}

/// The tiles that span an extent start inside it, and the last of them
/// reaches its end.
pub proof fn lemma_tiles_span(extent: u32, size: u32)
    requires
        size >= 1,
    ensures
        0 <= spec_tiles_across(extent, size) <= extent,
        forall|i: int| 0 <= i < spec_tiles_across(extent, size) ==> 0 <= #[trigger] (i * size) < extent,
        forall|x: int| 0 <= x < extent ==> 0 <= #[trigger] (x / (size as int)) < spec_tiles_across(extent, size),
{
    let d = size as int;
    if extent > 0 {
        let last = (extent - 1) / d;
        lemma_fundamental_div_mod(extent - 1, d);
        assert(d * last == last * d) by (nonlinear_arith);
        assert(0 <= last <= extent - 1) by (nonlinear_arith)
            requires
                last * d <= extent - 1,
                last * d + d > extent - 1,
                d >= 1,
                extent >= 1,
        ;
        assert forall|i: int| 0 <= i < last + 1 implies 0 <= #[trigger] (i * size) < extent by {
            assert(0 <= i * d <= last * d) by (nonlinear_arith)
                requires
                    0 <= i <= last,
                    d >= 1,
            ;
        }
        assert forall|x: int| 0 <= x < extent implies 0 <= #[trigger] (x / d) < last + 1 by {
            lemma_fundamental_div_mod(x, d);
            assert(d * (x / d) == (x / d) * d) by (nonlinear_arith);
            assert(0 <= x / d <= last) by (nonlinear_arith)
                requires
                    (x / d) * d <= x,
                    x < (x / d) * d + d,
                    0 <= x <= extent - 1,
                    last * d + d > extent - 1,
                    d >= 1,
            ;
        }
    }
}

/// Every pixel of the canvas lies on the tile at its [`tile_number`], and on
/// no other tile of the lattice.
pub proof fn lemma_pixel_on_one_tile(width: u32, height: u32, size: u32, x: int, y: int)
    requires
        size >= 1,
        0 <= x < width,
        0 <= y < height,
    ensures
        0 <= tile_number(x, y, height, size) < square_tiles(width, height, size).len(),
        forall|n: int|
            0 <= n < square_tiles(width, height, size).len() ==> (#[trigger] square_tiles(
                width,
                height,
                size,
            )[n]).spec_covers(x, y) == (n == tile_number(x, y, height, size)),
{
    let d = size as int;
    let columns = spec_tiles_across(width, size);
    let rows = spec_tiles_across(height, size);
    let tiles = square_tiles(width, height, size);
    lemma_tiles_span(width, size);
    lemma_tiles_span(height, size);
    let i = x / d;
    let j = y / d;
    assert(0 <= i < columns && 0 <= j < rows);
    crate::arith::lemma_grid_number_in_range(j, i, rows, columns);
    assert(i * rows + j == j + i * rows);
    assert(rows * columns == columns * rows) by (nonlinear_arith);
    assert forall|n: int| 0 <= n < tiles.len() implies (#[trigger] tiles[n]).spec_covers(x, y) == (n
        == tile_number(x, y, height, size)) by {
        let a = n / rows;
        let b = n % rows;
        lemma_fundamental_div_mod(n, rows);
        assert(rows * a == a * rows) by (nonlinear_arith);
        assert(0 <= a < columns) by (nonlinear_arith)
            requires
                n == a * rows + b,
                0 <= b < rows,
                0 <= n < columns * rows,
        ;
        assert(0 <= a * d < width && 0 <= b * d < height);
        lemma_quotient_is(x, d, a);
        lemma_quotient_is(y, d, b);
        if n == tile_number(x, y, height, size) {
            lemma_fundamental_div_mod_converse(n, rows, i, j);
        }
    }
}

/// How many tiles of side `size` it takes to span `extent` pixels.
pub fn tiles_across(extent: u32, size: u32) -> (count: u32)
    requires
        size >= 1,
    ensures
        count == spec_tiles_across(extent, size),
{
    proof {
        lemma_tiles_span(extent, size);
    }
    if extent == 0 {
        0
    } else {
        (extent - 1) / size + 1
    }
}

/// The tiles of the square lattice on a canvas of the given size: as many
/// columns and rows of them as it takes to cover the canvas, column after
/// column and, in a column, from the top down.
pub fn generate_square_tiles(width: u32, height: u32, size: u32) -> (tiles: Vec<Tile>)
    requires
        size >= 1,
    ensures
        tiles@ == square_tiles(width, height, size),
{
    let columns = tiles_across(width, size);
    let rows = tiles_across(height, size);
    let mut tiles: Vec<Tile> = Vec::new();
    let mut i: u32 = 0;
    proof {
        lemma_tiles_span(width, size);
        lemma_tiles_span(height, size);
    }
    while i < columns
        invariant
            size >= 1,
            i <= columns,
            columns == spec_tiles_across(width, size),
            rows == spec_tiles_across(height, size),
            forall|a: int| 0 <= a < columns ==> 0 <= #[trigger] (a * size) < width,
            forall|b: int| 0 <= b < rows ==> 0 <= #[trigger] (b * size) < height,
            tiles@ == Seq::new((i * rows) as nat, |n: int| square_tile(n / (rows as int), n % (rows as int), size)),
        decreases columns - i,
    {
        let mut j: u32 = 0;
        assert(0 <= i * size < width);
        let left: u32 = i * size;
        while j < rows
            invariant
                size >= 1,
                i < columns,
                j <= rows,
                left == i * size,
                forall|b: int| 0 <= b < rows ==> 0 <= #[trigger] (b * size) < height,
                tiles@ == Seq::new(
                    (i * rows + j) as nat,
                    |n: int| square_tile(n / (rows as int), n % (rows as int), size),
                ),
            decreases rows - j,
        {
            assert(0 <= j * size < height);
            let tile = Tile { left, top: j * size, side: size };
            proof {
                lemma_fundamental_div_mod_converse(i * rows + j, rows as int, i as int, j as int);
                assert(i * rows >= 0) by (nonlinear_arith)
                    requires
                        i >= 0,
                        rows >= 0,
                ;
            }
            tiles.push(tile);
            assert(tiles@ =~= Seq::new(
                (i * rows + j + 1) as nat,
                |n: int| square_tile(n / (rows as int), n % (rows as int), size),
            ));
            j += 1;
        }
        assert(i * rows + rows == (i + 1) * rows) by (nonlinear_arith);
        i += 1;
    }
    assert(tiles@ =~= square_tiles(width, height, size));
    tiles
}

/// Whether `y` is `q` times the sine of sixty degrees, rounded down: the
/// largest number whose double, squared, is at most three times `q` squared.
pub open spec fn is_sine_scaled(q: int, y: int) -> bool {
    &&& 0 <= y
    &&& 4 * (y * y) <= 3 * (q * q)
    &&& 3 * (q * q) < 4 * ((y + 1) * (y + 1))
}

/// `q` times the sine of sixty degrees, rounded down.
pub open spec fn sine_scaled(q: int) -> int {
    choose|y: int| is_sine_scaled(q, y)
}

proof fn lemma_square_grows(a: int, b: int)
    requires
        0 <= a <= b,
    ensures
        a * a <= b * b,
{
    assert(a * a <= b * b) by (nonlinear_arith)
        requires
            0 <= a <= b,
    ;
}

/// Only one number is `q` times the sine of sixty degrees, rounded down.
pub proof fn lemma_sine_scaled_unique(q: int, y1: int, y2: int)
    requires
        is_sine_scaled(q, y1),
        is_sine_scaled(q, y2),
    ensures
        y1 == y2,
{
    if y1 < y2 {
        lemma_square_grows(y1 + 1, y2);
    } else if y2 < y1 {
        lemma_square_grows(y2 + 1, y1);
    }
}

/// Every distance has a scaled value.
pub proof fn lemma_sine_scaled_exists(q: int)
    requires
        q >= 0,
    ensures
        is_sine_scaled(q, sine_scaled(q)),
    decreases q,
{
    if q == 0 {
        assert(is_sine_scaled(0, 0));
    } else {
        lemma_sine_scaled_exists(q - 1);
        let y = sine_scaled(q - 1);
        assert(3 * (q * q) == 3 * ((q - 1) * (q - 1)) + 6 * q - 3) by (nonlinear_arith);
        assert(4 * ((y + 2) * (y + 2)) == 4 * ((y + 1) * (y + 1)) + 8 * y + 12)
            by (nonlinear_arith);
        assert(4 * (y + 1) > 3 * (q - 1)) by (nonlinear_arith)
            requires
                3 * ((q - 1) * (q - 1)) < 4 * ((y + 1) * (y + 1)),
                y >= 0,
                q >= 1,
        ;
        if 3 * (q * q) < 4 * ((y + 1) * (y + 1)) {
            assert(is_sine_scaled(q, y));
        } else {
            assert(is_sine_scaled(q, y + 1));
        }
    }
}

/// `q` times the sine of sixty degrees, rounded down.
pub fn scale_by_sine(q: u32) -> (y: u32)
    ensures
        y == sine_scaled(q as int),
        is_sine_scaled(q as int, y as int),
{
    let target: u128 = 3 * squared(q);
    let mut low: u64 = 0;
    let mut high: u64 = q as u64 + 1;
    assert(3 * (q * q) < 4 * ((q + 1) * (q + 1))) by (nonlinear_arith)
        requires
            q >= 0,
    ;
    assert(4 * (0 * 0) <= 3 * (q * q)) by (nonlinear_arith);
    while high - low > 1
        invariant
            0 <= low < high <= q + 1,
            target == 3 * (q * q),
            4 * (low * low) <= target,
            target < 4 * (high * high),
        decreases high - low,
    {
        let middle: u64 = low + (high - low) / 2;
        assert(middle * middle <= 0x1_0000_0000 * 0x1_0000_0000) by (nonlinear_arith)
            requires
                0 <= middle <= 0x1_0000_0000,
        ;
        if 4 * ((middle as u128) * (middle as u128)) <= target {
            low = middle;
        } else {
            high = middle;
        }
    }
    proof {
        assert(is_sine_scaled(q as int, low as int));
        lemma_sine_scaled_exists(q as int);
        lemma_sine_scaled_unique(q as int, low as int, sine_scaled(q as int));
    }
    low as u32
}

/// Where lattice row `row` lies above or below the origin when the rows are
/// `size` times the sine of sixty degrees apart, rounded towards the origin.
pub open spec fn row_offset(row: int, size: u32) -> int {
    if row >= 0 {
        sine_scaled(row * size)
    } else {
        -sine_scaled(-row * size)
    }
}

/// The coordinate nearest to `v` that a point can have.
pub open spec fn clamp_to_i32(v: int) -> i32 {
    if v < i32::MIN {
        i32::MIN
    } else if v > i32::MAX {
        i32::MAX
    } else {
        v as i32
    }
}

/// Half of `v`, rounded towards zero.
pub open spec fn half_toward_zero(v: int) -> int {
    if v >= 0 {
        v / 2
    } else {
        -((-v) / 2)
    }
}

/// The lattice point at `doubled_x / 2` on lattice row `row`. Corners of
/// hexagons are such points; a corner that two hexagons share is the same
/// lattice point in both.
pub open spec fn lattice_node(doubled_x: int, row: int, size: u32) -> Point {
    Point { x: clamp_to_i32(half_toward_zero(doubled_x)), y: clamp_to_i32(row_offset(row, size)) }
}

/// The six corners of the hexagon of column position `i` and lattice row
/// `j`: clockwise on the screen from the left end of its top edge. Hexagons
/// on odd rows stand one and a half sides to the right.
pub open spec fn hexagon(i: int, j: int, size: u32) -> Seq<Point> {
    let x = if j % 2 == 0 {
        2 * i
    } else {
        2 * i + 3 * size
    };
    seq![
        lattice_node(x, j, size),
        lattice_node(x + 2 * size, j, size),
        lattice_node(x + 3 * size, j + 1, size),
        lattice_node(x + 2 * size, j + 2, size),
        lattice_node(x, j + 2, size),
        lattice_node(x - size, j + 1, size),
    ]
}

/// Adjacent hexagons share their corners exactly. The hexagon two rows
/// further down shares this one's bottom edge; the two hexagons on the next
/// row share its lower right and lower left edges.
pub proof fn lemma_hexagons_share_corners(i: int, j: int, size: u32)
    ensures
        hexagon(i, j, size)[4] == hexagon(i, j + 2, size)[0],
        hexagon(i, j, size)[3] == hexagon(i, j + 2, size)[1],
        j % 2 == 0 ==> {
            &&& hexagon(i, j, size)[2] == hexagon(i, j + 1, size)[0]
            &&& hexagon(i, j, size)[3] == hexagon(i, j + 1, size)[5]
            &&& hexagon(i, j, size)[5] == hexagon(i - 3 * size, j + 1, size)[1]
            &&& hexagon(i, j, size)[4] == hexagon(i - 3 * size, j + 1, size)[2]
        },
        j % 2 != 0 ==> {
            &&& hexagon(i, j, size)[2] == hexagon(i + 3 * size, j + 1, size)[0]
            &&& hexagon(i, j, size)[3] == hexagon(i + 3 * size, j + 1, size)[5]
            &&& hexagon(i, j, size)[5] == hexagon(i, j + 1, size)[1]
            &&& hexagon(i, j, size)[4] == hexagon(i, j + 1, size)[2]
        },
{
}

/// Whether `count` rows, `size` times the sine of sixty degrees apart, are
/// the fewest that span `height`.
pub open spec fn is_rows_to_span(height: u32, size: u32, count: int) -> bool {
    &&& count >= 0
    &&& 3 * ((count * size) * (count * size)) >= 4 * (height * height)
    &&& count > 0 ==> 3 * (((count - 1) * size) * ((count - 1) * size)) < 4 * (height * height)
}

/// The fewest rows, `size` times the sine of sixty degrees apart, that span
/// `height`: the quotient of the two, rounded up.
pub open spec fn rows_to_span(height: u32, size: u32) -> int {
    choose|count: int| is_rows_to_span(height, size, count)
}

/// Only one number of rows is the fewest that span a height.
pub proof fn lemma_rows_to_span_unique(height: u32, size: u32, c1: int, c2: int)
    requires
        is_rows_to_span(height, size, c1),
        is_rows_to_span(height, size, c2),
    ensures
        c1 == c2,
{
    if c1 < c2 {
        assert(0 <= c1 * size <= (c2 - 1) * size) by (nonlinear_arith)
            requires
                0 <= c1 <= c2 - 1,
                size >= 0,
        ;
        lemma_square_grows(c1 * size, (c2 - 1) * size);
    } else if c2 < c1 {
        assert(0 <= c2 * size <= (c1 - 1) * size) by (nonlinear_arith)
            requires
                0 <= c2 <= c1 - 1,
                size >= 0,
        ;
        lemma_square_grows(c2 * size, (c1 - 1) * size);
    }
}

/// Where some number of rows spans a height, a fewest number does.
proof fn lemma_fewest_rows_below(height: u32, size: u32, count: int)
    requires
        count >= 0,
        3 * ((count * size) * (count * size)) >= 4 * (height * height),
    ensures
        exists|fewest: int| 0 <= fewest <= count && is_rows_to_span(height, size, fewest),
    decreases count,
{
    if count == 0 {
        assert(is_rows_to_span(height, size, 0));
    } else if 3 * (((count - 1) * size) * ((count - 1) * size)) >= 4 * (height * height) {
        lemma_fewest_rows_below(height, size, count - 1);
    } else {
        assert(is_rows_to_span(height, size, count));
    }
}

/// Every height is spanned by a fewest number of rows, and that number
/// stops short of reaching twice the height.
pub proof fn lemma_rows_to_span_exists(height: u32, size: u32)
    requires
        size >= 1,
    ensures
        is_rows_to_span(height, size, rows_to_span(height, size)),
        rows_to_span(height, size) > 0 ==> (rows_to_span(height, size) - 1) * size < 2 * height,
{
    let enough = 2 * height;
    assert(enough * size >= 2 * height) by (nonlinear_arith)
        requires
            enough == 2 * height,
            size >= 1,
    ;
    lemma_square_grows(2 * height, enough * size);
    assert((2 * height) * (2 * height) == 4 * (height * height)) by (nonlinear_arith);
    lemma_fewest_rows_below(height, size, enough);
    let count = rows_to_span(height, size);
    if count > 0 {
        let reach = (count - 1) * size;
        assert(reach >= 0) by (nonlinear_arith)
            requires
                reach == (count - 1) * size,
                count >= 1,
                size >= 1,
        ;
        if reach >= 2 * height {
            lemma_square_grows(2 * height, reach);
        }
    }
}

/// Scaling by the sine of sixty degrees does not lengthen a distance.
pub proof fn lemma_sine_scaled_at_most(q: int)
    requires
        q >= 0,
    ensures
        0 <= sine_scaled(q) <= q,
{
    lemma_sine_scaled_exists(q);
    let y = sine_scaled(q);
    if y > q {
        lemma_square_grows(q + 1, y);
        assert((q + 1) * (q + 1) > q * q) by (nonlinear_arith)
            requires
                q >= 0,
        ;
    }
}

/// The fewest rows, `size` times the sine of sixty degrees apart, that span
/// `height`.
pub fn count_rows_to_span(height: u32, size: u32) -> (count: u64)
    requires
        size >= 1,
    ensures
        count == rows_to_span(height, size),
        is_rows_to_span(height, size, count as int),
        count <= 2 * height,
{
    let target: u128 = 4 * squared(height);
    let mut low: u64 = 0;
    let mut high: u64 = (2 * (height as u64)) / (size as u64) + 1;
    proof {
        let d = size as int;
        let top = (2 * height) / d;
        lemma_fundamental_div_mod(2 * height, d);
        assert(d * top == top * d) by (nonlinear_arith);
        assert((top + 1) * d == top * d + d) by (nonlinear_arith);
        assert(top <= 2 * height) by (nonlinear_arith)
            requires
                top * d <= 2 * height,
                d >= 1,
                top >= 0,
        ;
        lemma_square_grows(2 * height, (top + 1) * d);
        assert((2 * height) * (2 * height) == 4 * (height * height)) by (nonlinear_arith);
    }
    while low < high
        invariant
            size >= 1,
            0 <= low <= high <= 2 * height + 1,
            high * size <= 2 * height + size,
            target == 4 * (height * height),
            3 * ((high * size) * (high * size)) >= target,
            low > 0 ==> 3 * (((low - 1) * size) * ((low - 1) * size)) < target,
        decreases high - low,
    {
        let middle: u64 = low + (high - low) / 2;
        assert(0 <= middle * size <= high * size) by (nonlinear_arith)
            requires
                0 <= middle <= high,
                size >= 0,
        ;
        let reach: u128 = (middle as u128) * (size as u128);
        assert(reach * reach <= 0x5_0000_0000 * 0x5_0000_0000) by (nonlinear_arith)
            requires
                0 <= reach <= 0x5_0000_0000,
        ;
        if 3 * (reach * reach) >= target {
            high = middle;
        } else {
            low = middle + 1;
        }
    }
    proof {
        assert(is_rows_to_span(height, size, low as int));
        if low > 2 * height {
            let reach = (low - 1) * size;
            assert(reach >= 2 * height) by (nonlinear_arith)
                requires
                    reach == (low - 1) * size,
                    low - 1 == 2 * height,
                    size >= 1,
            ;
            lemma_square_grows(2 * height, reach);
            assert((2 * height) * (2 * height) == 4 * (height * height)) by (nonlinear_arith);
            assert(3 * (reach * reach) >= 4 * (height * height));
        }
        let chosen = rows_to_span(height, size);
        lemma_rows_to_span_unique(height, size, low as int, chosen);
    }
    low
}

/// The largest column position and lattice row, to either side of zero,
/// that [`hexagon_corners`] takes.
pub const MAX_LATTICE_INDEX: i64 = 0x8_0000_0000;

/// How many columns of hexagons there are: the first stands one side to the
/// left of the canvas, the next ones three sides further each, as long as
/// they start short of the right edge.
pub open spec fn hexagon_columns(width: u32, size: u32) -> int {
    (width + size - 1) / (3 * size) + 1
}

/// How many lattice rows of hexagons there are: the first is row `-size`,
/// the last the one after the rows that span the canvas.
pub open spec fn hexagon_rows(height: u32, size: u32) -> int {
    size + rows_to_span(height, size) + 1
}

/// The hexagons of the lattice on a canvas of the given size, column after
/// column and, in a column, from the top down.
pub open spec fn hexagons(width: u32, height: u32, size: u32) -> Seq<Seq<Point>> {
    let rows = hexagon_rows(height, size);
    Seq::new(
        (hexagon_columns(width, size) * rows) as nat,
        |n: int| hexagon(-size + 3 * size * (n / rows), -size + n % rows, size),
    )
}

/// The corners of every hexagon of a list.
pub open spec fn corner_lists(tiles: Seq<[Point; 6]>) -> Seq<Seq<Point>> {
    Seq::new(tiles.len(), |n: int| tiles[n]@)
}

/// The largest width and height of a canvas on which
/// [`lemma_hexagons_stay_in_reach`] speaks of the hexagon lattice.
pub const MAX_HEXAGON_EXTENT: u32 = 0x800_0000;

/// The largest side of a hexagon of which [`lemma_hexagons_stay_in_reach`]
/// speaks.
pub const MAX_HEXAGON_SIDE: u32 = 0x2000;

/// The largest magnitude of a corner coordinate on a canvas and with a side
/// within those limits.
pub const MAX_HEXAGON_REACH: i32 = 0x1000_8000;

/// On a canvas and with a side within the limits, the hexagons of the
/// lattice have six corners within [`MAX_HEXAGON_REACH`] of the origin, and
/// with a side of two or more the first corner differs from the last: the
/// path through the corners is open.
pub proof fn lemma_hexagons_stay_in_reach(width: u32, height: u32, size: u32, n: int)
    requires
        width <= MAX_HEXAGON_EXTENT,
        height <= MAX_HEXAGON_EXTENT,
        1 <= size <= MAX_HEXAGON_SIDE,
        0 <= n < hexagons(width, height, size).len(),
    ensures
        hexagons(width, height, size)[n].len() == 6,
        forall|k: int|
            0 <= k < 6 ==> {
                &&& -MAX_HEXAGON_REACH <= (#[trigger] hexagons(width, height, size)[n][k]).x
                    <= MAX_HEXAGON_REACH
                &&& -MAX_HEXAGON_REACH <= hexagons(width, height, size)[n][k].y
                    <= MAX_HEXAGON_REACH
            },
        size >= 2 ==> hexagons(width, height, size)[n][0] != hexagons(width, height, size)[n][5],
{
    let side = size as int;
    let columns = hexagon_columns(width, size);
    let rows = hexagon_rows(height, size);
    let spanning = rows_to_span(height, size);
    lemma_rows_to_span_exists(height, size);
    assert(rows >= 1);
    // which column and row
    let column = n / rows;
    let row = n % rows;
    lemma_fundamental_div_mod(n, rows);
    assert(rows * column == column * rows) by (nonlinear_arith);
    let d = 3 * side;
    lemma_fundamental_div_mod(width + side - 1, d);
    assert(d * (columns - 1) <= width + side - 1);
    assert(0 <= column < columns) by (nonlinear_arith)
        requires
            n == column * rows + row,
            0 <= row < rows,
            0 <= n < columns * rows,
    ;
    assert(0 <= d * column <= d * (columns - 1)) by (nonlinear_arith)
        requires
            0 <= column <= columns - 1,
            d >= 0,
    ;
    assert(3 * size * column == d * column) by (nonlinear_arith)
        requires
            d == 3 * size,
    ;
    let i = -side + 3 * size * column;
    let j = -side + row;
    assert(-side <= i < width);
    assert(-side <= j <= spanning);
    // how far the rows reach
    assert(spanning * side <= 2 * height + side) by (nonlinear_arith)
        requires
            spanning > 0 ==> (spanning - 1) * side < 2 * height,
            spanning >= 0,
            side >= 1,
            height >= 0,
    ;
    assert forall|k: int| j <= k <= j + 2 implies -MAX_HEXAGON_REACH <= #[trigger] row_offset(
        k,
        size,
    ) <= MAX_HEXAGON_REACH by {
        if k >= 0 {
            assert(0 <= k * side <= spanning * side + 2 * side) by (nonlinear_arith)
                requires
                    0 <= k <= spanning + 2,
                    side >= 1,
            ;
            lemma_sine_scaled_at_most(k * side);
        } else {
            assert(0 <= -k * side <= side * side) by (nonlinear_arith)
                requires
                    0 < -k <= side,
                    side >= 1,
            ;
            assert(side * side <= 0x2000 * 0x2000) by (nonlinear_arith)
                requires
                    1 <= side <= 0x2000,
            ;
            lemma_sine_scaled_at_most(-k * side);
        }
    }
    let hex = hexagons(width, height, size)[n];
    assert(hex == hexagon(i, j, size));
    assert(-MAX_HEXAGON_REACH <= row_offset(j, size) <= MAX_HEXAGON_REACH);
    assert(-MAX_HEXAGON_REACH <= row_offset(j + 1, size) <= MAX_HEXAGON_REACH);
    assert(-MAX_HEXAGON_REACH <= row_offset(j + 2, size) <= MAX_HEXAGON_REACH);
    assert forall|k: int| 0 <= k < 6 implies {
        &&& -MAX_HEXAGON_REACH <= (#[trigger] hex[k]).x <= MAX_HEXAGON_REACH
        &&& -MAX_HEXAGON_REACH <= hex[k].y <= MAX_HEXAGON_REACH
    } by {
        assert(k == 0 || k == 1 || k == 2 || k == 3 || k == 4 || k == 5);
    }
    if size >= 2 {
        assert(hex[0].x != hex[5].x);
    }
}

/// A distance of two to the power of 32 or more scales to more than any
/// coordinate.
proof fn lemma_sine_scaled_is_large(q: int)
    requires
        q >= 0x1_0000_0000,
    ensures
        sine_scaled(q) >= 0x8000_0000,
{
    lemma_sine_scaled_exists(q);
    let y = sine_scaled(q);
    if y + 1 <= 0x8000_0000 {
        lemma_square_grows(y + 1, 0x8000_0000);
        lemma_square_grows(0x1_0000_0000, q);
        assert(0x8000_0000 * 0x8000_0000 == 0x4000_0000_0000_0000) by (nonlinear_arith);
        assert(0x1_0000_0000 * 0x1_0000_0000 == 0x1_0000_0000_0000_0000) by (nonlinear_arith);
    }
}

/// The vertical coordinate of lattice row `row`.
fn row_coordinate(row: i64, size: u32) -> (y: i32)
    requires
        -0x10_0000_0000 <= row <= 0x10_0000_0000,
    ensures
        y == clamp_to_i32(row_offset(row as int, size)),
{
    let rows: u64 = if row >= 0 {
        row as u64
    } else {
        (-row) as u64
    };
    assert(0 <= rows * size <= 0x10_0000_0000 * 0xffff_ffff) by (nonlinear_arith)
        requires
            0 <= rows <= 0x10_0000_0000,
            0 <= size <= 0xffff_ffff,
    ;
    let reach: u128 = (rows as u128) * (size as u128);
    if reach > 0xffff_ffff {
        proof {
            lemma_sine_scaled_is_large(reach as int);
        }
        if row >= 0 {
            i32::MAX
        } else {
            i32::MIN
        }
    } else {
        let scaled: u32 = scale_by_sine(reach as u32);
        if row >= 0 {
            if scaled > 0x7fff_ffff {
                i32::MAX
            } else {
                scaled as i32
            }
        } else {
            if scaled > 0x8000_0000 {
                i32::MIN
            } else {
                (-(scaled as i64)) as i32
            }
        }
    }
}

/// The horizontal coordinate at half of `doubled_x`.
fn half_coordinate(doubled_x: i64) -> (x: i32)
    requires
        -0x100_0000_0000 <= doubled_x <= 0x100_0000_0000,
    ensures
        x == clamp_to_i32(half_toward_zero(doubled_x as int)),
{
    let half: i64 = if doubled_x >= 0 {
        ((doubled_x as u64) / 2) as i64
    } else {
        -((((-doubled_x) as u64) / 2) as i64)
    };
    if half < -0x8000_0000 {
        i32::MIN
    } else if half > 0x7fff_ffff {
        i32::MAX
    } else {
        half as i32
    }
}

/// The lattice point at `doubled_x / 2` on lattice row `row`.
fn node(doubled_x: i64, row: i64, size: u32) -> (point: Point)
    requires
        -0x100_0000_0000 <= doubled_x <= 0x100_0000_0000,
        -0x10_0000_0000 <= row <= 0x10_0000_0000,
    ensures
        point == lattice_node(doubled_x as int, row as int, size),
{
    Point { x: half_coordinate(doubled_x), y: row_coordinate(row, size) }
}

/// The six corners of the hexagon of column position `i` and lattice row
/// `j`: see [`hexagon`]. The arithmetic is 64 bits wide, which is room for
/// every hexagon of every canvas and more; `i` and `j` must lie within
/// [`MAX_LATTICE_INDEX`] of zero.
pub fn hexagon_corners(i: i64, j: i64, size: u32) -> (corners: [Point; 6])
    requires
        -MAX_LATTICE_INDEX <= i <= MAX_LATTICE_INDEX,
        -MAX_LATTICE_INDEX <= j <= MAX_LATTICE_INDEX,
    ensures
        corners@ == hexagon(i as int, j as int, size),
{
    let side: i64 = size as i64;
    let even: bool = (j + MAX_LATTICE_INDEX) as u64 % 2 == 0;
    assert(even == (j % 2 == 0));
    let x: i64 = if even {
        2 * i
    } else {
        2 * i + 3 * side
    };
    let corners = [
        node(x, j, size),
        node(x + 2 * side, j, size),
        node(x + 3 * side, j + 1, size),
        node(x + 2 * side, j + 2, size),
        node(x, j + 2, size),
        node(x - side, j + 1, size),
    ];
    assert(corners@ =~= hexagon(i as int, j as int, size));
    corners
}

/// The hexagons of the lattice on a canvas of the given size, each by its
/// six corners.
///
/// The lattice is flat-topped. Rows of corners are `size` times the sine of
/// sixty degrees apart and a hexagon is two rows high; columns of hexagons
/// are three sides apart, and the hexagons on odd rows stand one and a half
/// sides to the right, so that they fill the gaps. Vertical coordinates are
/// rounded towards the origin, and every coordinate is clamped to what a
/// point can hold.
pub fn generate_hexagon_anchors(width: u32, height: u32, size: u32) -> (tiles: Vec<[Point; 6]>)
    requires
        size >= 1,
    ensures
        corner_lists(tiles@) == hexagons(width, height, size),
{
    let side: i64 = size as i64;
    let columns: u64 = (width as u64 + size as u64 - 1) / (3 * (size as u64)) + 1;
    let rows: u64 = size as u64 + count_rows_to_span(height, size) + 1;
    let mut tiles: Vec<[Point; 6]> = Vec::new();
    let mut column: u64 = 0;
    proof {
        let d = 3 * size;
        lemma_fundamental_div_mod(width + size - 1, d);
        assert(d * ((width + size - 1) / d) == ((width + size - 1) / d) * d) by (nonlinear_arith);
        assert(3 * size * (columns - 1) == d * ((width + size - 1) / d)) by (nonlinear_arith)
            requires
                d == 3 * size,
                columns - 1 == (width + size - 1) / d,
        ;
    }
    while column < columns
        invariant
            size >= 1,
            side == size,
            column <= columns,
            columns == hexagon_columns(width, size),
            rows == hexagon_rows(height, size),
            1 <= rows <= 0x3_0000_0000,
            3 * size * (columns - 1) <= width + size - 1,
            corner_lists(tiles@) == Seq::new(
                (column * rows) as nat,
                |n: int|
                    hexagon(
                        -size + 3 * size * (n / (rows as int)),
                        -size + n % (rows as int),
                        size,
                    ),
            ),
        decreases columns - column,
    {
        assert(0 <= 3 * size * column <= 3 * size * (columns - 1)) by (nonlinear_arith)
            requires
                0 <= column <= columns - 1,
                size >= 1,
        ;
        let i: i64 = 3 * side * (column as i64) - side;
        let mut row: u64 = 0;
        while row < rows
            invariant
                size >= 1,
                side == size,
                column < columns,
                row <= rows,
                1 <= rows <= 0x3_0000_0000,
                i == -size + 3 * size * column,
                -0x1_0000_0000 <= i <= 0x8_0000_0000,
                corner_lists(tiles@) == Seq::new(
                    (column * rows + row) as nat,
                    |n: int|
                        hexagon(
                            -size + 3 * size * (n / (rows as int)),
                            -size + n % (rows as int),
                            size,
                        ),
                ),
            decreases rows - row,
        {
            let j: i64 = row as i64 - side;
            let corners = hexagon_corners(i, j, size);
            proof {
                lemma_fundamental_div_mod_converse(
                    column * rows + row,
                    rows as int,
                    column as int,
                    row as int,
                );
                assert(column * rows >= 0) by (nonlinear_arith)
                    requires
                        column >= 0,
                        rows >= 0,
                ;
            }
            let ghost before = tiles@;
            let ghost count = column * rows + row;
            tiles.push(corners);
            proof {
                let expected = Seq::new(
                    (count + 1) as nat,
                    |n: int|
                        hexagon(
                            -size + 3 * size * (n / (rows as int)),
                            -size + n % (rows as int),
                            size,
                        ),
                );
                assert(corner_lists(before).len() == count);
                assert forall|n: int| 0 <= n < count + 1 implies corner_lists(tiles@)[n]
                    == expected[n] by {
                    if n < count {
                        assert(tiles@[n] == before[n]);
                        assert(corner_lists(before)[n] == before[n]@);
                    } else {
                        assert(tiles@[n] == corners);
                        assert(3 * size * column == 3 * size * (n / (rows as int)));
                    }
                }
                assert(corner_lists(tiles@) =~= expected);
            }
            row += 1;
        }
        assert(column * rows + rows == (column + 1) * rows) by (nonlinear_arith);
        column += 1;
    }
    assert(corner_lists(tiles@) =~= hexagons(width, height, size));
    tiles
}

} // verus!
