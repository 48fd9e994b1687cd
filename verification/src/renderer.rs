//! Tiled rendering: the grid of tiles, the pixel order within a tile, and the
//! stitching of finished tiles into the framebuffer, whatever the order in
//! which they arrive.
//!
//! The framebuffer is row-major, three bytes per pixel, top row first: the
//! pixel in column `x` of image line `y` (lines counted from the bottom, as the
//! camera does) is found in row `height - 1 - y`.

use vstd::prelude::*;
use crate::scalar::{Scalar, ONE_BITS};

verus! {

/// Where channel `ch` of the pixel in row `row` and column `col` lies in a
/// row-major buffer that is `width` pixels wide.
pub open spec fn byte_index(width: int, row: int, col: int, ch: int) -> int {
    (row * width + col) * 3 + ch
}

/// Every pixel's bytes lie inside the buffer.
pub proof fn lemma_byte_index_in_bounds(width: int, height: int, row: int, col: int, ch: int)
    requires
        0 <= row < height,
        0 <= col < width,
        0 <= ch < 3,
    ensures
        0 <= row * width <= row * width + col,
        0 <= byte_index(width, row, col, ch) < width * height * 3,
{
    assert(0 <= row * width && row * width + width <= height * width) by (nonlinear_arith)
        requires
            0 <= row < height,
            0 < width,
    ;
    assert(height * width * 3 == width * height * 3) by (nonlinear_arith);
}

/// No two channels of any two pixels share a byte.
pub proof fn lemma_byte_index_is_injective(
    width: int,
    row1: int,
    col1: int,
    ch1: int,
    row2: int,
    col2: int,
    ch2: int,
)
    requires
        0 <= col1 < width,
        0 <= col2 < width,
        0 <= ch1 < 3,
        0 <= ch2 < 3,
        byte_index(width, row1, col1, ch1) == byte_index(width, row2, col2, ch2),
    ensures
        row1 == row2,
        col1 == col2,
        ch1 == ch2,
{
    assert(ch1 == ch2);
    assert(row1 * width + col1 == row2 * width + col2);
    assert(row1 == row2) by (nonlinear_arith)
        requires
            0 <= col1 < width,
            0 <= col2 < width,
            row1 * width + col1 == row2 * width + col2,
    ;
}

/// Pixels are laid out row by row, and within a row from the left.
pub proof fn lemma_byte_index_order(width: int, row1: int, col1: int, row2: int, col2: int)
    requires
        0 <= col1 < width,
        0 <= col2 < width,
        row1 < row2 || (row1 == row2 && col1 < col2),
    ensures
        byte_index(width, row1, col1, 2) < byte_index(width, row2, col2, 0),
{
    assert(row1 < row2 ==> row1 * width + width <= row2 * width) by (nonlinear_arith)
        requires
            width > 0,
    ;
}

/// One finished tile: the image coordinates of its lower left pixel, and its
/// pixels, row-major, top row first.
pub struct Tile {
    pub start_x: usize,
    pub start_y: usize,
    pub data: Vec<u8>,
}

impl Tile {
    /// The tile is a square of side `block` inside the image, with all its bytes.
    pub open spec fn fits(self, width: int, height: int, block: int) -> bool {
        &&& self.start_x + block <= width
        &&& self.start_y + block <= height
        &&& self.data@.len() == block * block * 3
    }

    /// The tile starts on a multiple of `block` in both directions.
    pub open spec fn starts_on_grid(self, block: int) -> bool {
        (self.start_x as int) % block == 0 && (self.start_y as int) % block == 0
    }

    /// The framebuffer row of the tile's top row.
    pub open spec fn top(self, height: int, block: int) -> int {
        height - self.start_y - block
    }

    /// Whether the tile holds the framebuffer pixel at `(row, col)`.
    pub open spec fn covers(self, height: int, block: int, row: int, col: int) -> bool {
        &&& self.start_x <= col < self.start_x + block
        &&& self.top(height, block) <= row < self.top(height, block) + block
    }

    /// The tile's byte for channel `ch` of the framebuffer pixel at `(row, col)`.
    pub open spec fn byte(self, height: int, block: int, row: int, col: int, ch: int) -> u8 {
        self.data@[byte_index(block, row - self.top(height, block), col - self.start_x, ch)]
    }
}

/// The position of a byte in a buffer, computed without overflow.
fn offset(width: usize, height: usize, row: usize, col: usize, ch: usize) -> (at: usize)
    requires
        row < height,
        col < width,
        ch < 3,
        width * height * 3 <= usize::MAX,
    ensures
        at == byte_index(width as int, row as int, col as int, ch as int),
        at < width * height * 3,
{
    proof {
        lemma_byte_index_in_bounds(width as int, height as int, row as int, col as int, ch as int);
    }
    (row * width + col) * 3 + ch
}

/// Copies a tile to its place in the framebuffer. Every byte under the tile
/// takes the tile's value; every other byte keeps its own.
pub fn place_tile(data: &mut Vec<u8>, width: usize, height: usize, block: usize, tile: &Tile)
    requires
        old(data)@.len() == width * height * 3,
        tile.fits(width as int, height as int, block as int),
    ensures
        final(data)@.len() == old(data)@.len(),
        forall|row: int, col: int, ch: int|
            0 <= row < height && 0 <= col < width && 0 <= ch < 3 ==> final(data)@[#[trigger] byte_index(
                width as int,
                row,
                col,
                ch,
            )] == if tile.covers(height as int, block as int, row, col) {
                tile.byte(height as int, block as int, row, col, ch)
            } else {
                old(data)@[byte_index(width as int, row, col, ch)]
            },
{
    let top: usize = height - tile.start_y - block;
    // taking the lengths tells that they fit a `usize`
    let frame_len: usize = data.len();
    let tile_len: usize = tile.data.len();
    let mut y: usize = 0;
    while y < block
        invariant
            y <= block,
            top == tile.top(height as int, block as int),
            data@.len() == width * height * 3 <= usize::MAX,
            block * block * 3 <= usize::MAX,
            tile.fits(width as int, height as int, block as int),
            forall|row: int, col: int, ch: int|
                0 <= row < height && 0 <= col < width && 0 <= ch < 3 ==> data@[#[trigger] byte_index(
                    width as int,
                    row,
                    col,
                    ch,
                )] == if tile.covers(height as int, block as int, row, col) && row < top + y {
                    tile.byte(height as int, block as int, row, col, ch)
                } else {
                    old(data)@[byte_index(width as int, row, col, ch)]
                },
        decreases block - y,
    {
        let mut x: usize = 0;
        while x < block
            invariant
                y < block,
                x <= block,
                top == tile.top(height as int, block as int),
                data@.len() == width * height * 3 <= usize::MAX,
                block * block * 3 <= usize::MAX,
                tile.fits(width as int, height as int, block as int),
                forall|row: int, col: int, ch: int|
                    0 <= row < height && 0 <= col < width && 0 <= ch < 3
                        ==> data@[#[trigger] byte_index(width as int, row, col, ch)] == if tile.covers(
                        height as int,
                        block as int,
                        row,
                        col,
                    ) && (row < top + y || (row == top + y && col < tile.start_x + x)) {
                        tile.byte(height as int, block as int, row, col, ch)
                    } else {
                        old(data)@[byte_index(width as int, row, col, ch)]
                    },
            decreases block - x,
        {
            let mut c: usize = 0;
            while c < 3
                invariant
                    y < block,
                    x < block,
                    c <= 3,
                    top == tile.top(height as int, block as int),
                    data@.len() == width * height * 3 <= usize::MAX,
                    block * block * 3 <= usize::MAX,
                    tile.fits(width as int, height as int, block as int),
                    forall|row: int, col: int, ch: int|
                        0 <= row < height && 0 <= col < width && 0 <= ch < 3
                            ==> data@[#[trigger] byte_index(width as int, row, col, ch)]
                            == if tile.covers(height as int, block as int, row, col) && (row < top
                            + y || (row == top + y && col < tile.start_x + x) || (row == top + y
                            && col == tile.start_x + x && ch < c)) {
                            tile.byte(height as int, block as int, row, col, ch)
                        } else {
                            old(data)@[byte_index(width as int, row, col, ch)]
                        },
                decreases 3 - c,
            {
                proof {
                    lemma_byte_index_in_bounds(
                        block as int,
                        block as int,
                        y as int,
                        x as int,
                        c as int,
                    );
                }
                let from = offset(block, block, y, x, c);
                let to = offset(width, height, top + y, tile.start_x + x, c);
                let value = tile.data[from];
                let ghost before = data@;
                data.set(to, value);
                proof {
                    assert forall|row: int, col: int, ch: int|
                        0 <= row < height && 0 <= col < width && 0 <= ch < 3 implies data@[#[trigger] byte_index(
                        width as int,
                        row,
                        col,
                        ch,
                    )] == if tile.covers(height as int, block as int, row, col) && (row < top + y
                        || (row == top + y && col < tile.start_x + x) || (row == top + y && col
                        == tile.start_x + x && ch < c + 1)) {
                        tile.byte(height as int, block as int, row, col, ch)
                    } else {
                        old(data)@[byte_index(width as int, row, col, ch)]
                    } by {
                        lemma_byte_index_in_bounds(width as int, height as int, row, col, ch);
                        if byte_index(width as int, row, col, ch) == to {
                            lemma_byte_index_is_injective(
                                width as int,
                                row,
                                col,
                                ch,
                                top + y,
                                tile.start_x + x,
                                c as int,
                            );
                        }
                    }
                }
                c += 1;
            }
            x += 1;
        }
        y += 1;
    }
}

/// How many tiles of side `block` it takes to span `extent` pixels, the last
/// one reaching beyond the image where `block` does not divide `extent`.
pub open spec fn steps(extent: int, block: int) -> int {
    if extent <= 0 {
        0
    } else {
        (extent - 1) / block + 1
    }
}

/// The place of the tile in row `r` and column `c` of the grid, in the order
/// in which the tiles are handed out.
pub open spec fn grid_slot(cols: int, r: int, c: int) -> int {
    r * cols + c
}

/// The list holds the origin of every tile of the grid once, row by row from
/// the bottom of the image, and within a row from the left.
pub open spec fn is_tile_grid(
    origins: Seq<(usize, usize)>,
    width: int,
    height: int,
    block: int,
) -> bool {
    let cols = steps(width, block);
    let rows = steps(height, block);
    &&& origins.len() == rows * cols
    &&& forall|r: int, c: int|
        0 <= r < rows && 0 <= c < cols ==> {
            &&& 0 <= #[trigger] grid_slot(cols, r, c) < origins.len()
            &&& origins[grid_slot(cols, r, c)].0 == c * block
            &&& origins[grid_slot(cols, r, c)].1 == r * block
        }
}

/// `n` tiles fall short of `extent` exactly when `n` is below the number of
/// tiles that span it.
pub proof fn lemma_steps(extent: int, block: int, n: int)
    requires
        block > 0,
        extent >= 0,
        n >= 0,
    ensures
        n * block < extent <==> n < steps(extent, block),
        steps(extent, block) >= 0,
        extent % block == 0 ==> steps(extent, block) * block == extent,
{
    if extent > 0 {
        let q = (extent - 1) / block;
        let m = (extent - 1) % block;
        vstd::arithmetic::div_mod::lemma_fundamental_div_mod(extent - 1, block);
        vstd::arithmetic::div_mod::lemma_mod_bound(extent - 1, block);
        vstd::arithmetic::div_mod::lemma_div_pos_is_pos(extent - 1, block);
        assert(n * block < extent <==> n <= q) by (nonlinear_arith)
            requires
                extent - 1 == block * q + m,
                0 <= m < block,
                n >= 0,
                q >= 0,
        ;
        if extent % block == 0 {
            let e = extent / block;
            vstd::arithmetic::div_mod::lemma_fundamental_div_mod(extent, block);
            assert(e == q + 1) by (nonlinear_arith)
                requires
                    extent == block * e,
                    extent - 1 == block * q + m,
                    0 <= m < block,
            ;
            assert((q + 1) * block == extent) by (nonlinear_arith)
                requires
                    extent == block * e,
                    e == q + 1,
            ;
        }
    } else {
        assert(n * block >= 0) by (nonlinear_arith)
            requires
                n >= 0,
                block > 0,
        ;
    }
}

/// Slots are numbered row by row.
pub proof fn lemma_grid_slot_order(cols: int, r1: int, c1: int, r2: int, c2: int)
    requires
        0 <= c1 < cols,
        0 <= c2 < cols,
    ensures
        grid_slot(cols, r1, c1) < grid_slot(cols, r2, c2) <==> (r1 < r2 || (r1 == r2 && c1 < c2)),
        grid_slot(cols, r1, c1) == grid_slot(cols, r2, c2) <==> (r1 == r2 && c1 == c2),
{
    assert(r1 < r2 ==> r1 * cols + cols <= r2 * cols) by (nonlinear_arith)
        requires
            cols > 0,
    ;
    assert(r2 < r1 ==> r2 * cols + cols <= r1 * cols) by (nonlinear_arith)
        requires
            cols > 0,
    ;
}

/// The origins of the tiles of an image, in the order in which they are
/// handed out: up the image row by row, and along each row from the left.
pub fn tile_origins(width: usize, height: usize, block: usize) -> (origins: Vec<(usize, usize)>)
    requires
        block > 0,
    ensures
        is_tile_grid(origins@, width as int, height as int, block as int),
{
    let ghost cols = steps(width as int, block as int);
    let ghost rows = steps(height as int, block as int);
    let mut origins: Vec<(usize, usize)> = Vec::new();
    let mut j: usize = 0;
    let mut more_rows = height > 0;
    let ghost mut r: int = 0;
    proof {
        lemma_steps(width as int, block as int, 0);
        lemma_steps(height as int, block as int, 0);
    }
    while more_rows
        invariant
            block > 0,
            cols == steps(width as int, block as int),
            rows == steps(height as int, block as int),
            cols >= 0,
            0 <= r <= rows,
            more_rows ==> j == r * block,
            more_rows ==> j < height,
            !more_rows ==> r == rows,
            origins@.len() == r * cols,
            forall|r1: int, c1: int|
                0 <= r1 < r && 0 <= c1 < cols ==> {
                    &&& 0 <= #[trigger] grid_slot(cols, r1, c1) < origins@.len()
                    &&& origins@[grid_slot(cols, r1, c1)].0 == c1 * block
                    &&& origins@[grid_slot(cols, r1, c1)].1 == r1 * block
                },
        decreases rows - r, more_rows as int,
    {
        let mut i: usize = 0;
        let mut more_cols = width > 0;
        let ghost mut c: int = 0;
        proof {
            lemma_steps(height as int, block as int, r);
        }
        while more_cols
            invariant
                block > 0,
                cols == steps(width as int, block as int),
                rows == steps(height as int, block as int),
                0 <= r < rows,
                0 <= c <= cols,
                j == r * block,
                j < height,
                more_cols ==> i == c * block,
                more_cols ==> i < width,
                !more_cols ==> c == cols,
                origins@.len() == r * cols + c,
                forall|r1: int, c1: int|
                    0 <= r1 <= r && 0 <= c1 < cols && (r1 < r || c1 < c) ==> {
                        &&& 0 <= #[trigger] grid_slot(cols, r1, c1) < origins@.len()
                    &&& origins@[grid_slot(cols, r1, c1)].0 == c1 * block
                        &&& origins@[grid_slot(cols, r1, c1)].1 == r1 * block
                    },
            decreases cols - c, more_cols as int,
        {
            let ghost before = origins@;
            origins.push((i, j));
            proof {
                lemma_steps(width as int, block as int, c);
                lemma_steps(width as int, block as int, c + 1);
                assert((c + 1) * block == c * block + block) by (nonlinear_arith);
                assert forall|r1: int, c1: int|
                    0 <= r1 <= r && 0 <= c1 < cols && (r1 < r || c1 < c + 1) implies {
                    &&& 0 <= #[trigger] grid_slot(cols, r1, c1) < origins@.len()
                    &&& origins@[grid_slot(cols, r1, c1)].0 == c1 * block
                    &&& origins@[grid_slot(cols, r1, c1)].1 == r1 * block
                } by {
                    lemma_grid_slot_order(cols, r1, c1, r, c);
                    if r1 == r && c1 == c {
                    } else {
                        assert(origins@[grid_slot(cols, r1, c1)] == before[grid_slot(cols, r1, c1)]);
                    }
                }
            }
            if width - i > block {
                i = i + block;
            } else {
                more_cols = false;
            }
            proof {
                c = c + 1;
            }
        }
        proof {
            lemma_steps(height as int, block as int, r + 1);
            assert((r + 1) * block == r * block + block) by (nonlinear_arith);
            assert((r + 1) * cols == r * cols + cols) by (nonlinear_arith);
            assert forall|r1: int, c1: int| 0 <= r1 < r + 1 && 0 <= c1 < cols implies {
                &&& 0 <= #[trigger] grid_slot(cols, r1, c1) < origins@.len()
                    &&& origins@[grid_slot(cols, r1, c1)].0 == c1 * block
                &&& origins@[grid_slot(cols, r1, c1)].1 == r1 * block
            } by {}
        }
        if height - j > block {
            j = j + block;
        } else {
            more_rows = false;
        }
        proof {
            r = r + 1;
        }
    }
    proof {
        if height == 0 {
            assert(rows == 0);
        }
        assert(origins@.len() == rows * cols);
    }
    origins
}

/// The byte of one channel of a pixel: 255 where the radiance lies above
/// one, and else `scaled`, the byte that the caller has worked out for the
/// radiance.
pub fn channel_byte(radiance: Scalar, scaled: u8) -> (byte: u8)
    ensures
        byte == if (Scalar { bits: ONE_BITS }).less(radiance) {
            255u8
        } else {
            scaled
        },
{
    if radiance.gt(Scalar::one()) {
        255
    } else {
        scaled
    }
}

/// Renders one tile: asks `shade` for the three bytes of every pixel of the
/// rectangle, line by line from the top line down, and within a line from the
/// left, and lays them out in that order.
pub fn partial_render<F: Fn(usize, usize) -> (u8, u8, u8)>(
    start_x: usize,
    start_y: usize,
    width: usize,
    height: usize,
    shade: &F,
) -> (data: Vec<u8>)
    requires
        start_x + width <= usize::MAX,
        start_y + height <= usize::MAX,
        width * height * 3 <= usize::MAX,
        forall|x: usize, y: usize|
            start_x <= x < start_x + width && start_y <= y < start_y + height ==> call_requires(
                shade,
                (x, y),
            ),
    ensures
        data@.len() == width * height * 3,
        forall|row: int, col: int|
            0 <= row < height && 0 <= col < width ==> call_ensures(
                shade,
                ((start_x + col) as usize, (start_y + height - 1 - row) as usize),
                (
                    data@[#[trigger] byte_index(width as int, row, col, 0)],
                    data@[byte_index(width as int, row, col, 1)],
                    data@[byte_index(width as int, row, col, 2)],
                ),
            ),
{
    let mut data: Vec<u8> = Vec::new();
    let mut row: usize = 0;
    while row < height
        invariant
            row <= height,
            start_x + width <= usize::MAX,
            start_y + height <= usize::MAX,
            width * height * 3 <= usize::MAX,
            forall|x: usize, y: usize|
                start_x <= x < start_x + width && start_y <= y < start_y + height ==> call_requires(
                    shade,
                    (x, y),
                ),
            data@.len() == byte_index(width as int, row as int, 0, 0),
            forall|r: int, c: int|
                0 <= r < row && 0 <= c < width ==> call_ensures(
                    shade,
                    ((start_x + c) as usize, (start_y + height - 1 - r) as usize),
                    (
                        data@[#[trigger] byte_index(width as int, r, c, 0)],
                        data@[byte_index(width as int, r, c, 1)],
                        data@[byte_index(width as int, r, c, 2)],
                    ),
                ),
        decreases height - row,
    {
        let y: usize = start_y + (height - 1 - row);
        let mut col: usize = 0;
        while col < width
            invariant
                row < height,
                col <= width,
                y == start_y + height - 1 - row,
                start_x + width <= usize::MAX,
                width * height * 3 <= usize::MAX,
                forall|x: usize, y: usize|
                    start_x <= x < start_x + width && start_y <= y < start_y + height
                        ==> call_requires(shade, (x, y)),
                data@.len() == byte_index(width as int, row as int, col as int, 0),
                forall|r: int, c: int|
                    0 <= r <= row && 0 <= c < width && (r < row || c < col) ==> call_ensures(
                        shade,
                        ((start_x + c) as usize, (start_y + height - 1 - r) as usize),
                        (
                            data@[#[trigger] byte_index(width as int, r, c, 0)],
                            data@[byte_index(width as int, r, c, 1)],
                            data@[byte_index(width as int, r, c, 2)],
                        ),
                    ),
            decreases width - col,
        {
            let x: usize = start_x + col;
            let (red, green, blue) = shade(x, y);
            let ghost before = data@;
            data.push(red);
            data.push(green);
            data.push(blue);
            proof {
                assert forall|r: int, c: int|
                    0 <= r <= row && 0 <= c < width && (r < row || c < col + 1) implies call_ensures(
                    shade,
                    ((start_x + c) as usize, (start_y + height - 1 - r) as usize),
                    (
                        data@[#[trigger] byte_index(width as int, r, c, 0)],
                        data@[byte_index(width as int, r, c, 1)],
                        data@[byte_index(width as int, r, c, 2)],
                    ),
                ) by {
                    lemma_byte_index_in_bounds(width as int, height as int, r, c, 0);
                    if r == row && c == col {
                    } else {
                        lemma_byte_index_order(width as int, r, c, row as int, col as int);
                        assert(data@[byte_index(width as int, r, c, 0)] == before[byte_index(
                            width as int,
                            r,
                            c,
                            0,
                        )]);
                        assert(data@[byte_index(width as int, r, c, 1)] == before[byte_index(
                            width as int,
                            r,
                            c,
                            1,
                        )]);
                        assert(data@[byte_index(width as int, r, c, 2)] == before[byte_index(
                            width as int,
                            r,
                            c,
                            2,
                        )]);
                    }
                }
            }
            col += 1;
        }
        proof {
            assert(byte_index(width as int, row as int, width as int, 0) == byte_index(
                width as int,
                row + 1,
                0,
                0,
            )) by (nonlinear_arith);
        }
        row += 1;
    }
    proof {
        assert(byte_index(width as int, height as int, 0, 0) == width * height * 3)
            by (nonlinear_arith);
    }
    data
}

/// What the framebuffer holds at a byte once the tiles have been placed in
/// their order of arrival on a blank frame: the byte of the last tile that
/// covers the pixel, and zero where none does.
pub open spec fn stitched_byte(
    tiles: Seq<Tile>,
    height: int,
    block: int,
    row: int,
    col: int,
    ch: int,
) -> u8
    decreases tiles.len(),
{
    if tiles.len() == 0 {
        0u8
    } else if tiles.last().covers(height, block, row, col) {
        tiles.last().byte(height, block, row, col, ch)
    } else {
        stitched_byte(tiles.drop_last(), height, block, row, col, ch)
    }
}

/// Builds the framebuffer from the finished tiles, taken in their order of
/// arrival.
pub fn assemble(width: usize, height: usize, block: usize, tiles: &Vec<Tile>) -> (data: Vec<u8>)
    requires
        width * height * 3 <= usize::MAX,
        forall|i: int|
            0 <= i < tiles@.len() ==> (#[trigger] tiles@[i]).fits(
                width as int,
                height as int,
                block as int,
            ),
    ensures
        data@.len() == width * height * 3,
        forall|row: int, col: int, ch: int|
            0 <= row < height && 0 <= col < width && 0 <= ch < 3 ==> data@[#[trigger] byte_index(
                width as int,
                row,
                col,
                ch,
            )] == stitched_byte(tiles@, height as int, block as int, row, col, ch),
{
    let mut data = blank_frame(width, height);
    let mut n: usize = 0;
    proof {
        assert forall|row: int, col: int, ch: int|
            0 <= row < height && 0 <= col < width && 0 <= ch < 3 implies data@[#[trigger] byte_index(
            width as int,
            row,
            col,
            ch,
        )] == stitched_byte(tiles@.take(0), height as int, block as int, row, col, ch) by {
            lemma_byte_index_in_bounds(width as int, height as int, row, col, ch);
        }
    }
    while n < tiles.len()
        invariant
            n <= tiles@.len(),
            data@.len() == width * height * 3,
            forall|i: int|
                0 <= i < tiles@.len() ==> (#[trigger] tiles@[i]).fits(
                    width as int,
                    height as int,
                    block as int,
                ),
            forall|row: int, col: int, ch: int|
                0 <= row < height && 0 <= col < width && 0 <= ch < 3 ==> data@[#[trigger] byte_index(
                    width as int,
                    row,
                    col,
                    ch,
                )] == stitched_byte(tiles@.take(n as int), height as int, block as int, row, col, ch),
        decreases tiles@.len() - n,
    {
        place_tile(&mut data, width, height, block, &tiles[n]);
        proof {
            let next = tiles@.take(n + 1);
            assert(next.last() == tiles@[n as int]);
            assert(next.drop_last() =~= tiles@.take(n as int));
        }
        n += 1;
    }
    proof {
        assert(tiles@.take(n as int) =~= tiles@);
    }
    data
}

/// A frame of `width` by `height` pixels, all bytes zero.
fn blank_frame(width: usize, height: usize) -> (data: Vec<u8>)
    requires
        width * height * 3 <= usize::MAX,
    ensures
        data@.len() == width * height * 3,
        forall|k: int| 0 <= k < data@.len() ==> data@[k] == 0u8,
{
    proof {
        assert(0 <= width * height <= width * height * 3) by (nonlinear_arith);
    }
    let len: usize = width * height * 3;
    let mut data: Vec<u8> = Vec::new();
    let mut k: usize = 0;
    while k < len
        invariant
            k <= len,
            data@.len() == k,
            forall|i: int| 0 <= i < k ==> data@[i] == 0u8,
        decreases len - k,
    {
        data.push(0u8);
        k += 1;
    }
    data
}

/// Every tile starts on a multiple of `block` in both directions.
pub open spec fn on_grid(tiles: Seq<Tile>, block: int) -> bool {
    forall|i: int|
        0 <= i < tiles.len() ==> (#[trigger] tiles[i]).starts_on_grid(block)
}

/// No two tiles of the list start at the same place.
pub open spec fn distinct_origins(tiles: Seq<Tile>) -> bool {
    forall|i: int, j: int|
        0 <= i < j < tiles.len() ==> !((#[trigger] tiles[i]).start_x == (#[trigger] tiles[j]).start_x
            && tiles[i].start_y == tiles[j].start_y)
}

/// Every tile of `tiles` occurs in `others`, with the same origin and bytes.
pub open spec fn all_found_in(tiles: Seq<Tile>, others: Seq<Tile>) -> bool {
    forall|i: int|
        0 <= i < tiles.len() ==> exists|j: int|
            0 <= j < others.len() && (#[trigger] others[j]).start_x == (#[trigger] tiles[i]).start_x
                && others[j].start_y == tiles[i].start_y && others[j].data@ == tiles[i].data@
}

proof fn lemma_same_cell(block: int, a: int, b: int, at: int)
    requires
        block > 0,
        a % block == 0,
        b % block == 0,
        a <= at < a + block,
        b <= at < b + block,
    ensures
        a == b,
{
    vstd::arithmetic::div_mod::lemma_fundamental_div_mod(a, block);
    vstd::arithmetic::div_mod::lemma_fundamental_div_mod(b, block);
    let p = a / block;
    let q = b / block;
    assert(p == q) by (nonlinear_arith)
        requires
            block > 0,
            a == block * p,
            b == block * q,
            a < b + block,
            b < a + block,
    ;
}

/// Two tiles on the grid that cover one pixel start at the same place: tiles
/// on the grid do not overlap.
pub proof fn lemma_grid_tiles_do_not_overlap(
    one: Tile,
    other: Tile,
    height: int,
    block: int,
    row: int,
    col: int,
)
    requires
        block > 0,
        one.starts_on_grid(block),
        other.starts_on_grid(block),
        one.covers(height, block, row, col),
        other.covers(height, block, row, col),
    ensures
        one.start_x == other.start_x,
        one.start_y == other.start_y,
{
    lemma_same_cell(block, one.start_x as int, other.start_x as int, col);
    lemma_same_cell(block, one.start_y as int, other.start_y as int, height - 1 - row);
}

/// Stitching is exact: whatever the order of arrival, each tile of a grid
/// whose tiles start at distinct places is found in the framebuffer byte for
/// byte at its own place.
pub proof fn lemma_tile_is_intact(
    tiles: Seq<Tile>,
    height: int,
    block: int,
    i: int,
    row: int,
    col: int,
    ch: int,
)
    requires
        block > 0,
        on_grid(tiles, block),
        distinct_origins(tiles),
        0 <= i < tiles.len(),
        tiles[i].covers(height, block, row, col),
    ensures
        stitched_byte(tiles, height, block, row, col, ch) == tiles[i].byte(
            height,
            block,
            row,
            col,
            ch,
        ),
    decreases tiles.len(),
{
    let last = tiles.len() - 1;
    if i < last {
        if tiles[last].covers(height, block, row, col) {
            lemma_grid_tiles_do_not_overlap(tiles[i], tiles[last], height, block, row, col);
        } else {
            let rest = tiles.drop_last();
            assert(on_grid(rest, block)) by {
                assert forall|k: int| 0 <= k < rest.len() implies (
                #[trigger] rest[k]).starts_on_grid(block) by {
                    assert(rest[k] == tiles[k]);
                }
            }
            assert(distinct_origins(rest)) by {
                assert forall|a: int, b: int| 0 <= a < b < rest.len() implies !((
                #[trigger] rest[a]).start_x == (#[trigger] rest[b]).start_x && rest[a].start_y
                    == rest[b].start_y) by {
                    assert(rest[a] == tiles[a] && rest[b] == tiles[b]);
                }
            }
            lemma_tile_is_intact(rest, height, block, i, row, col, ch);
        }
    }
}

/// Where no tile covers a pixel, the frame stays blank.
pub proof fn lemma_uncovered_is_blank(
    tiles: Seq<Tile>,
    height: int,
    block: int,
    row: int,
    col: int,
    ch: int,
)
    requires
        forall|i: int| 0 <= i < tiles.len() ==> !(#[trigger] tiles[i]).covers(height, block, row, col),
    ensures
        stitched_byte(tiles, height, block, row, col, ch) == 0,
    decreases tiles.len(),
{
    if tiles.len() > 0 {
        let rest = tiles.drop_last();
        assert(!tiles[tiles.len() - 1].covers(height, block, row, col));
        assert forall|i: int| 0 <= i < rest.len() implies !(#[trigger] rest[i]).covers(
            height,
            block,
            row,
            col,
        ) by {
            assert(rest[i] == tiles[i]);
        }
        lemma_uncovered_is_blank(rest, height, block, row, col, ch);
    }
}

/// The order of arrival is irrelevant: two lists that hold the same tiles of
/// a grid, each tile once, give the same framebuffer.
pub proof fn lemma_arrival_order_is_irrelevant(
    first: Seq<Tile>,
    second: Seq<Tile>,
    height: int,
    block: int,
    row: int,
    col: int,
    ch: int,
)
    requires
        block > 0,
        on_grid(first, block),
        on_grid(second, block),
        distinct_origins(first),
        distinct_origins(second),
        all_found_in(first, second),
        all_found_in(second, first),
    ensures
        stitched_byte(first, height, block, row, col, ch) == stitched_byte(
            second,
            height,
            block,
            row,
            col,
            ch,
        ),
{
    if exists|i: int| 0 <= i < first.len() && (#[trigger] first[i]).covers(height, block, row, col) {
        let i = choose|i: int|
            0 <= i < first.len() && (#[trigger] first[i]).covers(height, block, row, col);
        let j = choose|j: int|
            0 <= j < second.len() && (#[trigger] second[j]).start_x == first[i].start_x
                && second[j].start_y == first[i].start_y && second[j].data@ == first[i].data@;
        lemma_tile_is_intact(first, height, block, i, row, col, ch);
        lemma_tile_is_intact(second, height, block, j, row, col, ch);
    } else {
        assert forall|j: int| 0 <= j < second.len() implies !(#[trigger] second[j]).covers(
            height,
            block,
            row,
            col,
        ) by {
            let i = choose|i: int|
                0 <= i < first.len() && (#[trigger] first[i]).start_x == second[j].start_x
                    && first[i].start_y == second[j].start_y && first[i].data@ == second[j].data@;
            assert(first[i].covers(height, block, row, col) == second[j].covers(
                height,
                block,
                row,
                col,
            ));
        }
        lemma_uncovered_is_blank(first, height, block, row, col, ch);
        lemma_uncovered_is_blank(second, height, block, row, col, ch);
    }
}

/// The cell of the grid that holds a coordinate.
proof fn lemma_cell_of(extent: int, block: int, at: int)
    requires
        block > 0,
        0 <= at < extent,
    ensures
        0 <= at / block < steps(extent, block),
        (at / block) * block <= at < (at / block) * block + block,
{
    let q = at / block;
    vstd::arithmetic::div_mod::lemma_fundamental_div_mod(at, block);
    vstd::arithmetic::div_mod::lemma_mod_bound(at, block);
    vstd::arithmetic::div_mod::lemma_div_pos_is_pos(at, block);
    assert(q * block == block * q) by (nonlinear_arith);
    lemma_steps(extent, block, q);
}

/// The grid leaves no gap: where the list holds a tile for every cell of the
/// grid of an image whose sides are multiples of `block`, every pixel of the
/// image is covered by one of them.
pub proof fn lemma_grid_leaves_no_gap(
    tiles: Seq<Tile>,
    width: int,
    height: int,
    block: int,
    row: int,
    col: int,
)
    requires
        block > 0,
        0 <= row < height,
        0 <= col < width,
        forall|r: int, c: int|
            0 <= r < steps(height, block) && 0 <= c < steps(width, block) ==> exists|i: int|
                0 <= i < tiles.len() && (#[trigger] tiles[i]).start_x == #[trigger] (c * block)
                    && tiles[i].start_y == #[trigger] (r * block),
    ensures
        exists|i: int| 0 <= i < tiles.len() && (#[trigger] tiles[i]).covers(height, block, row, col),
{
    let c = col / block;
    let r = (height - 1 - row) / block;
    lemma_cell_of(width, block, col);
    lemma_cell_of(height, block, height - 1 - row);
    let i = choose|i: int|
        0 <= i < tiles.len() && (#[trigger] tiles[i]).start_x == #[trigger] (c * block)
            && tiles[i].start_y == #[trigger] (r * block);
    assert(tiles[i].covers(height, block, row, col));
}

/// The place in the order of the grid of the tile that holds a pixel.
pub open spec fn pixel_slot(width: int, height: int, block: int, row: int, col: int) -> int {
    grid_slot(steps(width, block), (height - 1 - row) / block, col / block)
}

/// Renders an image tile by tile: every tile of the grid is rendered with
/// `shade` and placed in the framebuffer. In the result, each pixel holds what
/// `shade` gave for its column and its line, lines counted from the bottom.
pub fn render<F: Fn(usize, usize) -> (u8, u8, u8)>(
    width: usize,
    height: usize,
    block_size: usize,
    shade: &F,
) -> (data: Vec<u8>)
    requires
        block_size > 0,
        width % block_size == 0,
        height % block_size == 0,
        width * height * 3 <= usize::MAX,
        forall|x: usize, y: usize| x < width && y < height ==> call_requires(shade, (x, y)),
    ensures
        data@.len() == width * height * 3,
        forall|row: int, col: int|
            0 <= row < height && 0 <= col < width ==> call_ensures(
                shade,
                (col as usize, (height - 1 - row) as usize),
                (
                    data@[#[trigger] byte_index(width as int, row, col, 0)],
                    data@[byte_index(width as int, row, col, 1)],
                    data@[byte_index(width as int, row, col, 2)],
                ),
            ),
{
    let ghost cols = steps(width as int, block_size as int);
    let ghost rows = steps(height as int, block_size as int);
    let origins = tile_origins(width, height, block_size);
    let mut data = blank_frame(width, height);
    let mut n: usize = 0;
    proof {
        lemma_steps(width as int, block_size as int, 0);
        lemma_steps(height as int, block_size as int, 0);
        assert forall|row: int, col: int| 0 <= row < height && 0 <= col < width implies pixel_slot(
            width as int,
            height as int,
            block_size as int,
            row,
            col,
        ) >= 0 by {
            lemma_pixel_slot(width as int, height as int, block_size as int, row, col);
        }
    }
    while n < origins.len()
        invariant
            block_size > 0,
            width % block_size == 0,
            height % block_size == 0,
            width * height * 3 <= usize::MAX,
            cols == steps(width as int, block_size as int),
            rows == steps(height as int, block_size as int),
            cols * block_size == width,
            rows * block_size == height,
            forall|x: usize, y: usize| x < width && y < height ==> call_requires(shade, (x, y)),
            is_tile_grid(origins@, width as int, height as int, block_size as int),
            n <= origins@.len(),
            data@.len() == width * height * 3,
            forall|row: int, col: int|
                0 <= row < height && 0 <= col < width && pixel_slot(
                    width as int,
                    height as int,
                    block_size as int,
                    row,
                    col,
                ) < n ==> call_ensures(
                    shade,
                    (col as usize, (height - 1 - row) as usize),
                    (
                        data@[#[trigger] byte_index(width as int, row, col, 0)],
                        data@[byte_index(width as int, row, col, 1)],
                        data@[byte_index(width as int, row, col, 2)],
                    ),
                ),
        decreases origins@.len() - n,
    {
        let (i, j) = origins[n];
        let ghost r = n as int / cols;
        let ghost c = n as int % cols;
        proof {
            lemma_slot_of_index(rows, cols, n as int);
            assert(origins@[grid_slot(cols, r, c)].0 == c * block_size);
            assert((c + 1) * block_size <= cols * block_size) by (nonlinear_arith)
                requires
                    c < cols,
                    block_size > 0,
            ;
            assert((r + 1) * block_size <= rows * block_size) by (nonlinear_arith)
                requires
                    r < rows,
                    block_size > 0,
            ;
            assert((c + 1) * block_size == c * block_size + block_size) by (nonlinear_arith);
            assert((r + 1) * block_size == r * block_size + block_size) by (nonlinear_arith);
            assert(block_size * block_size * 3 <= width * height * 3) by (nonlinear_arith)
                requires
                    0 < block_size <= width,
                    0 < block_size <= height,
            ;
        }
        let pixels = partial_render(i, j, block_size, block_size, shade);
        let tile = Tile { start_x: i, start_y: j, data: pixels };
        let ghost before = data@;
        place_tile(&mut data, width, height, block_size, &tile);
        proof {
            assert forall|row: int, col: int|
                0 <= row < height && 0 <= col < width && pixel_slot(
                    width as int,
                    height as int,
                    block_size as int,
                    row,
                    col,
                ) < n + 1 implies call_ensures(
                shade,
                (col as usize, (height - 1 - row) as usize),
                (
                    data@[#[trigger] byte_index(width as int, row, col, 0)],
                    data@[byte_index(width as int, row, col, 1)],
                    data@[byte_index(width as int, row, col, 2)],
                ),
            ) by {
                let top = tile.top(height as int, block_size as int);
                if tile.covers(height as int, block_size as int, row, col) {
                    let lr = row - top;
                    let lc = col - i;
                    assert(data@[byte_index(width as int, row, col, 0)] == pixels@[byte_index(
                        block_size as int,
                        lr,
                        lc,
                        0,
                    )]);
                    assert(data@[byte_index(width as int, row, col, 1)] == pixels@[byte_index(
                        block_size as int,
                        lr,
                        lc,
                        1,
                    )]);
                    assert(data@[byte_index(width as int, row, col, 2)] == pixels@[byte_index(
                        block_size as int,
                        lr,
                        lc,
                        2,
                    )]);
                } else {
                    lemma_pixel_slot(width as int, height as int, block_size as int, row, col);
                    let r1 = (height - 1 - row) / (block_size as int);
                    let c1 = col / (block_size as int);
                    lemma_grid_slot_order(cols, r1, c1, r, c);
                    assert(data@[byte_index(width as int, row, col, 0)] == before[byte_index(
                        width as int,
                        row,
                        col,
                        0,
                    )]);
                    assert(data@[byte_index(width as int, row, col, 1)] == before[byte_index(
                        width as int,
                        row,
                        col,
                        1,
                    )]);
                    assert(data@[byte_index(width as int, row, col, 2)] == before[byte_index(
                        width as int,
                        row,
                        col,
                        2,
                    )]);
                }
            }
        }
        n += 1;
    }
    proof {
        assert forall|row: int, col: int| 0 <= row < height && 0 <= col < width implies pixel_slot(
            width as int,
            height as int,
            block_size as int,
            row,
            col,
        ) < n by {
            lemma_pixel_slot(width as int, height as int, block_size as int, row, col);
        }
    }
    data
}

/// The tile that holds a pixel is one of the grid, and covers the pixel.
proof fn lemma_pixel_slot(width: int, height: int, block: int, row: int, col: int)
    requires
        block > 0,
        0 <= row < height,
        0 <= col < width,
    ensures
        0 <= (height - 1 - row) / block < steps(height, block),
        0 <= col / block < steps(width, block),
        ((height - 1 - row) / block) * block <= height - 1 - row < ((height - 1 - row) / block)
            * block + block,
        (col / block) * block <= col < (col / block) * block + block,
        0 <= pixel_slot(width, height, block, row, col) < steps(height, block) * steps(
            width,
            block,
        ),
{
    lemma_cell_of(width, block, col);
    lemma_cell_of(height, block, height - 1 - row);
    let r = (height - 1 - row) / block;
    let c = col / block;
    let rows = steps(height, block);
    let cols = steps(width, block);
    assert(0 <= r * cols + c < rows * cols) by (nonlinear_arith)
        requires
            0 <= r < rows,
            0 <= c < cols,
    ;
}

/// A place in the order of the grid names one row and one column of it.
proof fn lemma_slot_of_index(rows: int, cols: int, n: int)
    requires
        0 <= n < rows * cols,
        rows >= 0,
        cols >= 0,
    ensures
        0 <= n / cols < rows,
        0 <= n % cols < cols,
        grid_slot(cols, n / cols, n % cols) == n,
{
    assert(cols > 0) by (nonlinear_arith)
        requires
            0 <= n < rows * cols,
            cols >= 0,
    ;
    vstd::arithmetic::div_mod::lemma_fundamental_div_mod(n, cols);
    vstd::arithmetic::div_mod::lemma_mod_bound(n, cols);
    vstd::arithmetic::div_mod::lemma_div_pos_is_pos(n, cols);
    let q = n / cols;
    let m = n % cols;
    assert(q * cols == cols * q) by (nonlinear_arith);
    assert(q < rows) by (nonlinear_arith)
        requires
            n == cols * q + m,
            0 <= m,
            n < rows * cols,
            cols > 0,
    ;
}

/// Why a tile is turned away.
#[derive(Clone, Copy, Debug, PartialEq, Eq, Structural)]
pub enum TileError {
    /// The tile does not start on the grid, or reaches beyond the image.
    OffGrid,
    /// The tile does not hold three bytes for each of its pixels.
    WrongSize,
    /// A tile that starts at the same place has arrived before.
    Duplicate,
}

/// How many of the first `upto` entries are not set.
pub open spec fn unset(flags: Seq<bool>, upto: int) -> nat
    decreases upto,
{
    if upto <= 0 {
        0
    } else {
        unset(flags, upto - 1) + if flags[upto - 1] {
            0nat
        } else {
            1nat
        }
    }
}

proof fn lemma_unset_after_set(flags: Seq<bool>, at: int, upto: int)
    requires
        0 <= at < flags.len(),
        0 <= upto <= flags.len(),
        !flags[at],
    ensures
        unset(flags.update(at, true), upto) == unset(flags, upto) - if at < upto {
            1int
        } else {
            0int
        },
        at < upto ==> unset(flags, upto) >= 1,
    decreases upto,
{
    if upto > 0 {
        lemma_unset_after_set(flags, at, upto - 1);
    }
}

proof fn lemma_none_unset(flags: Seq<bool>, upto: int)
    requires
        0 <= upto <= flags.len(),
    ensures
        unset(flags, upto) == 0 <==> forall|k: int| 0 <= k < upto ==> flags[k],
        unset(flags, upto) <= upto,
    decreases upto,
{
    if upto > 0 {
        lemma_none_unset(flags, upto - 1);
    }
}

/// The frame while its tiles arrive. Tiles may come in any order; each is
/// written to its place as it comes, and the frame is handed out only once
/// every tile of the grid has come.
pub struct Collector {
    pub width: usize,
    pub height: usize,
    pub block: usize,
    pub data: Vec<u8>,
    pub arrived: Vec<bool>,
    pub missing: usize,
    pub accepted: Ghost<Seq<Tile>>,
}

impl Collector {
    /// The tiles taken in so far, in their order of arrival.
    pub open spec fn tiles(self) -> Seq<Tile> {
        self.accepted@
    }

    /// The number of columns of the grid.
    pub open spec fn cols(self) -> int {
        steps(self.width as int, self.block as int)
    }

    /// The number of rows of the grid.
    pub open spec fn rows(self) -> int {
        steps(self.height as int, self.block as int)
    }

    /// The image is a whole number of tiles wide and high. Every tile taken
    /// in lies on the grid, and no two of them at the same place. A place of
    /// the grid is marked when its tile has come, `missing` counts the places
    /// that are not, and the frame holds the tiles that have come, each at
    /// its place, and is blank elsewhere.
    pub open spec fn wf(self) -> bool {
        &&& self.block > 0
        &&& self.width % self.block == 0
        &&& self.height % self.block == 0
        &&& self.data@.len() == self.width * self.height * 3
        &&& self.arrived@.len() == self.rows() * self.cols()
        &&& self.missing == unset(self.arrived@, self.arrived@.len() as int)
        &&& on_grid(self.tiles(), self.block as int)
        &&& distinct_origins(self.tiles())
        &&& forall|i: int|
            0 <= i < self.tiles().len() ==> (#[trigger] self.tiles()[i]).fits(
                self.width as int,
                self.height as int,
                self.block as int,
            )
        &&& forall|r: int, c: int|
            0 <= r < self.rows() && 0 <= c < self.cols() ==> (self.arrived@[#[trigger] grid_slot(
                self.cols(),
                r,
                c,
            )] <==> self.has_tile_at(c * self.block, r * self.block))
        &&& forall|row: int, col: int, ch: int|
            0 <= row < self.height && 0 <= col < self.width && 0 <= ch < 3
                ==> self.data@[#[trigger] byte_index(self.width as int, row, col, ch)]
                == stitched_byte(self.tiles(), self.height as int, self.block as int, row, col, ch)
    }

    /// Whether a tile that starts at `(x, y)` has been taken in.
    pub open spec fn has_tile_at(self, x: int, y: int) -> bool {
        exists|i: int|
            0 <= i < self.tiles().len() && (#[trigger] self.tiles()[i]).start_x == x
                && self.tiles()[i].start_y == y
    }

    /// What becomes of a tile that is offered: it is turned away where it
    /// does not lie on the grid inside the image, where it has not the bytes
    /// of a tile, or where its place is taken; else it is taken in.
    pub open spec fn verdict(self, tile: Tile) -> Result<(), TileError> {
        if !(tile.starts_on_grid(self.block as int) && tile.start_x + self.block <= self.width
            && tile.start_y + self.block <= self.height) {
            Err(TileError::OffGrid)
        } else if tile.data@.len() != self.block * self.block * 3 {
            Err(TileError::WrongSize)
        } else if self.has_tile_at(tile.start_x as int, tile.start_y as int) {
            Err(TileError::Duplicate)
        } else {
            Ok(())
        }
    }

    /// A blank frame that waits for every tile of its grid.
    pub fn new(width: usize, height: usize, block: usize) -> (c: Collector)
        requires
            block > 0,
            width % block == 0,
            height % block == 0,
            width * height * 3 <= usize::MAX,
        ensures
            c.wf(),
            c.width == width,
            c.height == height,
            c.block == block,
            c.tiles() == Seq::<Tile>::empty(),
            c.missing == c.rows() * c.cols(),
    {
        let cols: usize = width / block;
        let rows: usize = height / block;
        proof {
            lemma_steps(width as int, block as int, 0);
            lemma_steps(height as int, block as int, 0);
            lemma_whole_steps(width as int, block as int);
            lemma_whole_steps(height as int, block as int);
            assert(0 <= rows * cols <= width * height) by (nonlinear_arith)
                requires
                    0 <= rows <= height,
                    0 <= cols <= width,
            ;
            assert(0 <= width * height <= width * height * 3) by (nonlinear_arith);
        }
        let places: usize = rows * cols;
        let mut arrived: Vec<bool> = Vec::new();
        let mut k: usize = 0;
        while k < places
            invariant
                k <= places,
                arrived@.len() == k,
                forall|i: int| 0 <= i < k ==> !arrived@[i],
                unset(arrived@, k as int) == k,
            decreases places - k,
        {
            let ghost before = arrived@;
            arrived.push(false);
            proof {
                lemma_unset_agrees(before, arrived@, k as int);
            }
            k += 1;
        }
        let data = blank_frame(width, height);
        let made = Collector {
            width,
            height,
            block,
            data,
            arrived,
            missing: places,
            accepted: Ghost(Seq::empty()),
        };
        proof {
            assert forall|row: int, col: int, ch: int|
                0 <= row < height && 0 <= col < width && 0 <= ch < 3 implies made.data@[#[trigger] byte_index(
                width as int,
                row,
                col,
                ch,
            )] == stitched_byte(made.tiles(), height as int, block as int, row, col, ch) by {
                lemma_byte_index_in_bounds(width as int, height as int, row, col, ch);
            }
            assert forall|r: int, c: int| 0 <= r < made.rows() && 0 <= c < made.cols() implies (
            made.arrived@[#[trigger] grid_slot(made.cols(), r, c)] <==> made.has_tile_at(
                c * block,
                r * block,
            )) by {
                lemma_grid_slot_in_bounds(made.rows(), made.cols(), r, c);
            }
        }
        made
    }

    /// How many tiles have yet to come.
    pub fn remaining(&self) -> (n: usize)
        ensures
            n == self.missing,
    {
        self.missing
    }

    /// Takes in a tile and writes it to its place, or turns it away and
    /// leaves the frame as it is.
    pub fn accept(&mut self, tile: Tile) -> (out: Result<(), TileError>)
        requires
            old(self).wf(),
        ensures
            final(self).wf(),
            out == old(self).verdict(tile),
            final(self).width == old(self).width,
            final(self).height == old(self).height,
            final(self).block == old(self).block,
            out is Ok ==> final(self).tiles() == old(self).tiles().push(tile) && final(self).missing
                == old(self).missing - 1,
            out is Err ==> final(self).tiles() == old(self).tiles() && final(self).missing == old(
                self,
            ).missing && final(self).data@ == old(self).data@,
    {
        let block: usize = self.block;
        if tile.start_x % block != 0 || tile.start_y % block != 0 || tile.start_x > self.width
            || self.width - tile.start_x < block || tile.start_y > self.height || self.height
            - tile.start_y < block {
            return Err(TileError::OffGrid);
        }
        // taking the lengths tells that they fit a `usize`
        let frame_len: usize = self.data.len();
        let places: usize = self.arrived.len();
        proof {
            assert(block * block * 3 <= self.width * self.height * 3) by (nonlinear_arith)
                requires
                    0 < block <= self.width,
                    0 < block <= self.height,
            ;
            assert(0 <= block * block <= block * block * 3) by (nonlinear_arith);
        }
        if tile.data.len() != block * block * 3 {
            return Err(TileError::WrongSize);
        }
        let c: usize = tile.start_x / block;
        let r: usize = tile.start_y / block;
        let cols: usize = self.width / block;
        proof {
            lemma_whole_steps(self.width as int, block as int);
            lemma_whole_steps(self.height as int, block as int);
            lemma_whole_steps(tile.start_x as int, block as int);
            lemma_whole_steps(tile.start_y as int, block as int);
            lemma_steps(self.width as int, block as int, c as int);
            lemma_steps(self.height as int, block as int, r as int);
            assert(c * block == tile.start_x && r * block == tile.start_y);
            assert(c < self.cols() && r < self.rows());
            assert(0 <= r * cols + c < self.rows() * self.cols()) by (nonlinear_arith)
                requires
                    0 <= r < self.rows(),
                    0 <= c < self.cols(),
                    cols == self.cols(),
            ;
        }
        let slot: usize = r * cols + c;
        assert(slot == grid_slot(self.cols(), r as int, c as int));
        if self.arrived[slot] {
            return Err(TileError::Duplicate);
        }
        assert(!self.has_tile_at(tile.start_x as int, tile.start_y as int));
        let ghost before = *self;
        place_tile(&mut self.data, self.width, self.height, block, &tile);
        self.arrived.set(slot, true);
        proof {
            lemma_unset_after_set(before.arrived@, slot as int, before.arrived@.len() as int);
        }
        self.missing = self.missing - 1;
        self.accepted = Ghost(before.tiles().push(tile));
        proof {
            let now = self.tiles();
            assert(now.last() == tile);
            assert(now.drop_last() =~= before.tiles());
            assert(on_grid(now, block as int)) by {
                assert forall|i: int| 0 <= i < now.len() implies (#[trigger] now[i]).starts_on_grid(
                    block as int,
                ) by {
                    if i < before.tiles().len() {
                        assert(now[i] == before.tiles()[i]);
                    }
                }
            }
            assert(distinct_origins(now)) by {
                assert forall|i: int, j: int| 0 <= i < j < now.len() implies !((
                #[trigger] now[i]).start_x == (#[trigger] now[j]).start_x && now[i].start_y
                    == now[j].start_y) by {
                    assert(now[i] == before.tiles()[i]);
                    if j < before.tiles().len() {
                        assert(now[j] == before.tiles()[j]);
                    }
                }
            }
            assert forall|i: int| 0 <= i < now.len() implies (#[trigger] now[i]).fits(
                self.width as int,
                self.height as int,
                block as int,
            ) by {
                if i < before.tiles().len() {
                    assert(now[i] == before.tiles()[i]);
                }
            }
            assert forall|r1: int, c1: int| 0 <= r1 < self.rows() && 0 <= c1 < self.cols() implies (
            self.arrived@[#[trigger] grid_slot(self.cols(), r1, c1)] <==> self.has_tile_at(
                c1 * block,
                r1 * block,
            )) by {
                lemma_grid_slot_order(self.cols(), r1, c1, r as int, c as int);
                lemma_grid_slot_in_bounds(self.rows(), self.cols(), r1, c1);
                let at = grid_slot(self.cols(), r1, c1);
                assert(before.rows() == self.rows() && before.cols() == self.cols());
                assert(before.arrived@[grid_slot(before.cols(), r1, c1)] <==> before.has_tile_at(
                    c1 * block,
                    r1 * block,
                ));
                assert(self.arrived@ == before.arrived@.update(slot as int, true));
                if r1 == r && c1 == c {
                    let last = now.len() - 1;
                    assert(now[last].start_x == c1 * block && now[last].start_y == r1 * block);
                    assert(self.has_tile_at(c1 * block, r1 * block));
                } else {
                    assert(at != slot);
                    assert(c1 * block != tile.start_x || r1 * block != tile.start_y) by (nonlinear_arith)
                        requires
                            c * block == tile.start_x,
                            r * block == tile.start_y,
                            block > 0,
                            r1 != r || c1 != c,
                    ;
                    if before.has_tile_at(c1 * block, r1 * block) {
                        let i = choose|i: int|
                            0 <= i < before.tiles().len() && (#[trigger] before.tiles()[i]).start_x
                                == c1 * block && before.tiles()[i].start_y == r1 * block;
                        assert(now[i] == before.tiles()[i]);
                    }
                    if self.has_tile_at(c1 * block, r1 * block) {
                        let i = choose|i: int|
                            0 <= i < now.len() && (#[trigger] now[i]).start_x == c1 * block
                                && now[i].start_y == r1 * block;
                        assert(i < before.tiles().len());
                        assert(now[i] == before.tiles()[i]);
                    }
                }
            }
        }
        Ok(())
    }

    /// The frame, once every tile has come; nothing while some are missing.
    pub fn finish(self) -> (out: Option<Vec<u8>>)
        requires
            self.wf(),
        ensures
            out is Some <==> self.missing == 0,
            out is Some <==> forall|r: int, c: int|
                0 <= r < self.rows() && 0 <= c < self.cols() ==> #[trigger] self.has_tile_at(
                    c * self.block,
                    r * self.block,
                ),
            out matches Some(frame) ==> frame@ == self.data@ && forall|
                i: int,
                row: int,
                col: int,
                ch: int,
            |
                0 <= i < self.tiles().len() && 0 <= ch < 3 && self.tiles()[i].covers(
                    self.height as int,
                    self.block as int,
                    row,
                    col,
                ) ==> frame@[byte_index(self.width as int, row, col, ch)]
                    == #[trigger] self.tiles()[i].byte(
                    self.height as int,
                    self.block as int,
                    row,
                    col,
                    ch,
                ),
    {
        proof {
            assert forall|i: int, row: int, col: int, ch: int|
                0 <= i < self.tiles().len() && 0 <= ch < 3 && self.tiles()[i].covers(
                    self.height as int,
                    self.block as int,
                    row,
                    col,
                ) implies self.data@[byte_index(self.width as int, row, col, ch)]
                == #[trigger] self.tiles()[i].byte(
                self.height as int,
                self.block as int,
                row,
                col,
                ch,
            ) by {
                assert(self.tiles()[i].fits(
                    self.width as int,
                    self.height as int,
                    self.block as int,
                ));
                lemma_tile_is_intact(
                    self.tiles(),
                    self.height as int,
                    self.block as int,
                    i,
                    row,
                    col,
                    ch,
                );
            }
            lemma_none_unset(self.arrived@, self.arrived@.len() as int);
            if self.missing == 0 {
                assert forall|r: int, c: int|
                    0 <= r < self.rows() && 0 <= c < self.cols() implies #[trigger] self.has_tile_at(
                    c * self.block,
                    r * self.block,
                ) by {
                    lemma_grid_slot_in_bounds(self.rows(), self.cols(), r, c);
                    assert(self.arrived@[grid_slot(self.cols(), r, c)]);
                }
            } else {
                let k = choose|k: int| 0 <= k < self.arrived@.len() && !self.arrived@[k];
                lemma_slot_of_index(self.rows(), self.cols(), k);
                let r = k / self.cols();
                let c = k % self.cols();
                assert(!self.arrived@[grid_slot(self.cols(), r, c)]);
                assert(!self.has_tile_at(c * self.block, r * self.block));
            }
        }
        if self.missing == 0 {
            Some(self.data)
        } else {
            None
        }
    }
}

/// Every place of the grid has its number.
proof fn lemma_grid_slot_in_bounds(rows: int, cols: int, r: int, c: int)
    requires
        0 <= r < rows,
        0 <= c < cols,
    ensures
        0 <= grid_slot(cols, r, c) < rows * cols,
{
    assert(0 <= r * cols + c < rows * cols) by (nonlinear_arith)
        requires
            0 <= r < rows,
            0 <= c < cols,
    ;
}

/// The number of tiles that span a whole number of tiles.
proof fn lemma_whole_steps(extent: int, block: int)
    requires
        block > 0,
        extent >= 0,
        extent % block == 0,
    ensures
        steps(extent, block) == extent / block,
        (extent / block) * block == extent,
        0 <= extent / block <= extent,
{
    lemma_steps(extent, block, 0);
    vstd::arithmetic::div_mod::lemma_fundamental_div_mod(extent, block);
    vstd::arithmetic::div_mod::lemma_div_pos_is_pos(extent, block);
    let q = extent / block;
    assert(q * block == block * q) by (nonlinear_arith);
    assert(steps(extent, block) == q) by (nonlinear_arith)
        requires
            steps(extent, block) * block == extent,
            q * block == extent,
            block > 0,
    ;
    assert(q <= extent) by (nonlinear_arith)
        requires
            q * block == extent,
            block >= 1,
            q >= 0,
    ;
}

/// Counting looks at the entries before `upto` only.
proof fn lemma_unset_agrees(one: Seq<bool>, other: Seq<bool>, upto: int)
    requires
        0 <= upto <= one.len(),
        upto < other.len(),
        forall|i: int| 0 <= i < upto ==> one[i] == other[i],
        !other[upto],
    ensures
        unset(other, upto) == unset(one, upto),
        unset(other, upto + 1) == unset(one, upto) + 1,
    decreases upto,
{
    if upto > 0 {
        lemma_unset_prefix(one, other, upto);
    }
}

proof fn lemma_unset_prefix(one: Seq<bool>, other: Seq<bool>, upto: int)
    requires
        0 <= upto <= one.len(),
        upto <= other.len(),
        forall|i: int| 0 <= i < upto ==> one[i] == other[i],
    ensures
        unset(other, upto) == unset(one, upto),
    decreases upto,
{
    if upto > 0 {
        lemma_unset_prefix(one, other, upto - 1);
    }
}

/// Every byte of a frame is a channel of one of its pixels.
pub proof fn lemma_byte_is_of_a_pixel(width: int, height: int, k: int) -> (at: (int, int, int))
    requires
        0 <= k < width * height * 3,
        width >= 0,
        height >= 0,
    ensures
        0 <= at.0 < height,
        0 <= at.1 < width,
        0 <= at.2 < 3,
        byte_index(width, at.0, at.1, at.2) == k,
{
    assert(width > 0) by (nonlinear_arith)
        requires
            0 <= k < width * height * 3,
            width >= 0,
            height >= 0,
    ;
    let p = k / 3;
    let ch = k % 3;
    let row = p / width;
    let col = p % width;
    vstd::arithmetic::div_mod::lemma_fundamental_div_mod(p, width);
    vstd::arithmetic::div_mod::lemma_mod_bound(p, width);
    vstd::arithmetic::div_mod::lemma_div_pos_is_pos(p, width);
    assert(row * width == width * row) by (nonlinear_arith);
    assert(row < height) by (nonlinear_arith)
        requires
            p == width * row + col,
            0 <= col,
            3 * p < width * height * 3,
            width > 0,
    ;
    (row, col, ch)
}

/// Byte for byte, the frame does not depend on the order of arrival: two
/// frames that were stitched from the same tiles of a grid, each tile once,
/// are equal.
pub proof fn lemma_frames_are_equal(
    first: Seq<Tile>,
    second: Seq<Tile>,
    width: int,
    height: int,
    block: int,
    one: Seq<u8>,
    other: Seq<u8>,
)
    requires
        block > 0,
        width >= 0,
        height >= 0,
        on_grid(first, block),
        on_grid(second, block),
        distinct_origins(first),
        distinct_origins(second),
        all_found_in(first, second),
        all_found_in(second, first),
        one.len() == width * height * 3,
        other.len() == width * height * 3,
        forall|row: int, col: int, ch: int|
            0 <= row < height && 0 <= col < width && 0 <= ch < 3 ==> one[#[trigger] byte_index(
                width,
                row,
                col,
                ch,
            )] == stitched_byte(first, height, block, row, col, ch),
        forall|row: int, col: int, ch: int|
            0 <= row < height && 0 <= col < width && 0 <= ch < 3 ==> other[#[trigger] byte_index(
                width,
                row,
                col,
                ch,
            )] == stitched_byte(second, height, block, row, col, ch),
    ensures
        one == other,
{
    assert forall|k: int| 0 <= k < one.len() implies one[k] == other[k] by {
        let (row, col, ch) = lemma_byte_is_of_a_pixel(width, height, k);
        lemma_arrival_order_is_irrelevant(first, second, height, block, row, col, ch);
        assert(one[byte_index(width, row, col, ch)] == stitched_byte(
            first,
            height,
            block,
            row,
            col,
            ch,
        ));
        assert(other[byte_index(width, row, col, ch)] == stitched_byte(
            second,
            height,
            block,
            row,
            col,
            ch,
        ));
    }
    assert(one =~= other);
}

/// Two collectors of one image that have taken in the same tiles, in
/// whatever order each, hold the same frame.
pub proof fn lemma_collectors_agree(one: Collector, other: Collector)
    requires
        one.wf(),
        other.wf(),
        one.width == other.width,
        one.height == other.height,
        one.block == other.block,
        all_found_in(one.tiles(), other.tiles()),
        all_found_in(other.tiles(), one.tiles()),
    ensures
        one.data@ == other.data@,
{
    lemma_frames_are_equal(
        one.tiles(),
        other.tiles(),
        one.width as int,
        one.height as int,
        one.block as int,
        one.data@,
        other.data@,
    );
}

} // verus!
