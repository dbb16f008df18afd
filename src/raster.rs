//! Rasterizing a grid of uniformly colored square tiles into an RGB canvas.
use vstd::arithmetic::div_mod::*;
use vstd::arithmetic::mul::*;
use vstd::prelude::*;

verus! {

/// Channel `c` (0 red, 1 green, 2 blue) of an RGBA tile color.
pub open spec fn tile_channel(t: (u8, u8, u8, u8), c: int) -> u8 {
    if c == 0 {
        t.0
    } else if c == 1 {
        t.1
    } else {
        t.2
    }
}

/// Channel `c` (0 red, 1 green, 2 blue) of an RGB color.
pub open spec fn rgb_channel(bg: (u8, u8, u8), c: int) -> u8 {
    if c == 0 {
        bg.0
    } else if c == 1 {
        bg.1
    } else {
        bg.2
    }
}

/// A tile with a zero alpha channel marks a cell that keeps the background.
pub open spec fn is_opaque(t: (u8, u8, u8, u8)) -> bool {
    t.3 != 0
}

/// Number of bytes of the canvas for a `tiles_x` by `tiles_y` grid of `ts`-pixel tiles.
pub open spec fn canvas_len(tiles_x: int, tiles_y: int, ts: int) -> int {
    tiles_x * ts * tiles_y * ts * 3
}

/// Index, in the row-major tile sequence, of the tile whose block covers
/// pixel number `p` of a canvas `tiles_x * ts` pixels wide.
pub open spec fn tile_of_pixel(p: int, tiles_x: int, ts: int) -> int {
    let w = tiles_x * ts;
    ((p / w) / ts) * tiles_x + (p % w) / ts
}

/// Byte `i` of the rendered canvas: the channel `i % 3` of the tile covering
/// pixel `i / 3` when that tile is present and opaque, else of the background.
pub open spec fn canvas_byte(
    tiles: Seq<(u8, u8, u8, u8)>,
    tiles_x: int,
    ts: int,
    bg: (u8, u8, u8),
    i: int,
) -> u8 {
    let t = tile_of_pixel(i / 3, tiles_x, ts);
    if t < tiles.len() && is_opaque(tiles[t]) {
        tile_channel(tiles[t], i % 3)
    } else {
        rgb_channel(bg, i % 3)
    }
}

/// Byte index of channel `c` of the pixel at offset `(ox, oy)` inside the
/// block of tile `(tx, ty)`.
pub open spec fn block_byte_index(
    tiles_x: int,
    ts: int,
    tx: int,
    ty: int,
    ox: int,
    oy: int,
    c: int,
) -> int {
    ((ty * ts + oy) * (tiles_x * ts) + tx * ts + ox) * 3 + c
}

/// Canvas byte `i` once tiles before `k` are stamped, and of tile `k` the rows
/// before `oy` and, of row `oy`, the pixels before `ox`.
spec fn stamped_byte(
    tiles: Seq<(u8, u8, u8, u8)>,
    tiles_x: int,
    ts: int,
    bg: (u8, u8, u8),
    i: int,
    k: int,
    oy: int,
    ox: int,
) -> u8 {
    let p = i / 3;
    let w = tiles_x * ts;
    let t = tile_of_pixel(p, tiles_x, ts);
    let row = (p / w) % ts;
    let col = (p % w) % ts;
    let done = t < k || (t == k && (row < oy || (row == oy && col < ox)));
    if done && t < tiles.len() && is_opaque(tiles[t]) {
        tile_channel(tiles[t], i % 3)
    } else {
        rgb_channel(bg, i % 3)
    }
}

/// The pixel at offset `(ox, oy)` of the block of tile `(tx, ty)` lies in
/// that tile, at that offset.
proof fn lemma_decode_block_pixel(tiles_x: int, ts: int, tx: int, ty: int, ox: int, oy: int)
    requires
        0 <= tx < tiles_x,
        0 <= ty,
        0 <= ox < ts,
        0 <= oy < ts,
    ensures
        ({
            let w = tiles_x * ts;
            let p = (ty * ts + oy) * w + tx * ts + ox;
            &&& p / w == ty * ts + oy
            &&& p % w == tx * ts + ox
            &&& (p / w) % ts == oy
            &&& (p % w) % ts == ox
            &&& tile_of_pixel(p, tiles_x, ts) == ty * tiles_x + tx
        }),
{
    let w = tiles_x * ts;
    let p = (ty * ts + oy) * w + tx * ts + ox;
    assert(tx * ts + ox < w) by (nonlinear_arith)
        requires
            0 <= tx < tiles_x,
            0 <= ox < ts,
            w == tiles_x * ts,
    ;
    assert(0 <= tx * ts) by (nonlinear_arith)
        requires
            0 <= tx,
            0 <= ts,
    ;
    lemma_fundamental_div_mod_converse(p, w, ty * ts + oy, tx * ts + ox);
    lemma_fundamental_div_mod_converse(ty * ts + oy, ts, ty, oy);
    lemma_fundamental_div_mod_converse(tx * ts + ox, ts, tx, ox);
}

/// A pixel of the canvas lies in exactly one block: the one its tile index,
/// row and column inside the block name.
proof fn lemma_encode_pixel(p: int, tiles_x: int, ts: int, tx: int, ty: int, ox: int, oy: int)
    requires
        0 <= p,
        0 < tiles_x,
        0 < ts,
        0 <= tx < tiles_x,
        0 <= ty,
        tile_of_pixel(p, tiles_x, ts) == ty * tiles_x + tx,
        (p / (tiles_x * ts)) % ts == oy,
        (p % (tiles_x * ts)) % ts == ox,
    ensures
        p == (ty * ts + oy) * (tiles_x * ts) + tx * ts + ox,
{
    let w = tiles_x * ts;
    assert(0 < w) by (nonlinear_arith)
        requires
            0 < tiles_x,
            0 < ts,
            w == tiles_x * ts,
    ;
    let py = p / w;
    let px = p % w;
    lemma_fundamental_div_mod(p, w);
    lemma_fundamental_div_mod(py, ts);
    lemma_fundamental_div_mod(px, ts);
    lemma_div_pos_is_pos(p, w);
    lemma_div_pos_is_pos(py, ts);
    lemma_mod_bound(p, w);
    lemma_div_pos_is_pos(px, ts);
    lemma_mul_is_commutative(ts, tiles_x);
    lemma_multiply_divide_lt(px, ts, tiles_x);
    lemma_fundamental_div_mod_converse(ty * tiles_x + tx, tiles_x, py / ts, px / ts);
    lemma_fundamental_div_mod_converse(ty * tiles_x + tx, tiles_x, ty, tx);
    assert(py == ty * ts + oy) by {
        lemma_mul_is_commutative(ts, py / ts);
    }
    assert(px == tx * ts + ox) by {
        lemma_mul_is_commutative(ts, px / ts);
    }
    assert(p == py * w + px) by {
        lemma_mul_is_commutative(w, py);
    }
}

/// Every pixel of a `tiles_x` by `tiles_y` canvas lies in a tile of the grid.
proof fn lemma_tile_in_grid(p: int, tiles_x: int, tiles_y: int, ts: int)
    requires
        0 < tiles_x,
        0 < ts,
        0 <= p < tiles_x * ts * (tiles_y * ts),
    ensures
        0 <= tile_of_pixel(p, tiles_x, ts) < tiles_x * tiles_y,
{
    let w = tiles_x * ts;
    assert(0 < w) by (nonlinear_arith)
        requires
            0 < tiles_x,
            0 < ts,
            w == tiles_x * ts,
    ;
    let py = p / w;
    let px = p % w;
    lemma_div_pos_is_pos(p, w);
    lemma_mod_bound(p, w);
    lemma_multiply_divide_lt(p, w, tiles_y * ts);
    lemma_multiply_divide_lt(py, ts, tiles_y);
    lemma_mul_is_commutative(ts, tiles_x);
    lemma_multiply_divide_lt(px, ts, tiles_x);
    lemma_div_pos_is_pos(py, ts);
    lemma_div_pos_is_pos(px, ts);
    let ty = py / ts;
    let tx = px / ts;
    assert(ty * tiles_x + tx < tiles_x * tiles_y) by (nonlinear_arith)
        requires
            0 <= ty < tiles_y,
            0 <= tx < tiles_x,
    ;
    assert(0 <= ty * tiles_x) by (nonlinear_arith)
        requires
            0 <= ty,
            0 <= tiles_x,
    ;
}

/// Where byte `i` of a nonempty canvas falls: its pixel, that pixel's tile,
/// and its row and column inside the tile's block are all in range.
proof fn lemma_byte_coords(i: int, tiles_x: int, tiles_y: int, ts: int)
    requires
        0 < tiles_x,
        0 < ts,
        0 <= i < tiles_x * ts * (tiles_y * ts) * 3,
    ensures
        0 <= i / 3 < tiles_x * ts * (tiles_y * ts),
        0 <= tile_of_pixel(i / 3, tiles_x, ts) < tiles_x * tiles_y,
        0 <= (i / 3 / (tiles_x * ts)) % ts < ts,
        0 <= (i / 3 % (tiles_x * ts)) % ts < ts,
        0 <= i % 3 < 3,
{
    let w = tiles_x * ts;
    assert(0 < w) by (nonlinear_arith)
        requires
            0 < tiles_x,
            0 < ts,
            w == tiles_x * ts,
    ;
    lemma_multiply_divide_lt(i, 3, w * (tiles_y * ts));
    lemma_div_pos_is_pos(i, 3);
    lemma_tile_in_grid(i / 3, tiles_x, tiles_y, ts);
    lemma_div_pos_is_pos(i / 3, w);
    lemma_mod_bound(i / 3, w);
    lemma_mod_bound(i / 3 / w, ts);
    lemma_mod_bound(i / 3 % w, ts);
}

/// A row of a tile's block lies inside a canvas of the grid's size.
proof fn lemma_block_row_fits(tiles_x: int, tiles_y: int, ts: int, tx: int, ty: int, oy: int)
    requires
        0 <= tx < tiles_x,
        0 <= ty < tiles_y,
        0 <= oy < ts,
    ensures
        0 <= tx * ts,
        tx * ts + ts <= tiles_x * ts,
        0 <= ty * ts,
        ty * ts + oy < tiles_y * ts,
        ((ty * ts + oy) * (tiles_x * ts) + tx * ts) * 3 + ts * 3 <= tiles_x * ts * (tiles_y
            * ts) * 3,
{
    let w = tiles_x * ts;
    let h = tiles_y * ts;
    assert(0 <= tx * ts && tx * ts + ts <= w) by (nonlinear_arith)
        requires
            0 <= tx < tiles_x,
            0 < ts,
            w == tiles_x * ts,
    ;
    assert(0 <= ty * ts && ty * ts + oy + 1 <= h) by (nonlinear_arith)
        requires
            0 <= ty < tiles_y,
            0 <= oy < ts,
            h == tiles_y * ts,
    ;
    assert((ty * ts + oy) * w + w <= w * h) by (nonlinear_arith)
        requires
            0 <= ty * ts + oy,
            ty * ts + oy + 1 <= h,
            0 <= w,
    ;
}

/// Renders a `tiles_x` by `tiles_y` grid of `tile_size`-pixel square tiles into
/// an RGB canvas, row-major, three bytes a pixel. Every pixel starts as the
/// background color; each opaque tile then paints its whole block with its
/// color. Tiles with a zero alpha, and entries past the end of the grid, leave
/// the canvas as it is; a grid with fewer entries than cells leaves the
/// remaining blocks in the background color.
pub fn render_minimap_buffer(
    tile_colors: Vec<(u8, u8, u8, u8)>,
    tiles_x: u32,
    tiles_y: u32,
    tile_size: u32,
    bg_r: u8,
    bg_g: u8,
    bg_b: u8,
) -> (buf: Vec<u8>)
    requires
        canvas_len(tiles_x as int, tiles_y as int, tile_size as int) <= usize::MAX,
    ensures
        buf@.len() == canvas_len(tiles_x as int, tiles_y as int, tile_size as int),
        forall|i: int|
            0 <= i < buf@.len() ==> #[trigger] buf@[i] == canvas_byte(
                tile_colors@,
                tiles_x as int,
                tile_size as int,
                (bg_r, bg_g, bg_b),
                i,
            ),
{
    let ghost tiles = tile_colors@;
    let ghost bg = (bg_r, bg_g, bg_b);
    let ghost gx = tiles_x as int;
    let ghost gy = tiles_y as int;
    let ghost ts_i = tile_size as int;
    if tiles_x == 0 || tiles_y == 0 || tile_size == 0 {
        proof {
            assert(canvas_len(gx, gy, ts_i) == 0) by (nonlinear_arith)
                requires
                    gx == 0 || gy == 0 || ts_i == 0,
            ;
        }
        return Vec::new();
    }
    proof {
        lemma_mul_is_associative(gx * ts_i, gy, ts_i);
        assert(gx * ts_i <= gx * ts_i * (gy * ts_i) * 3 && gy * ts_i <= gx * ts_i * (gy * ts_i)
            * 3 && gx * gy <= gx * ts_i * (gy * ts_i) * 3) by (nonlinear_arith)
            requires
                0 < gx,
                0 < gy,
                0 < ts_i,
        ;
    }
    let ts = tile_size as usize;
    let grid_w = tiles_x as usize;
    let img_w: usize = grid_w * ts;
    let img_h: usize = (tiles_y as usize) * ts;
    let total: usize = img_w * img_h * 3;
    let n_cells: usize = grid_w * (tiles_y as usize);

    // Fill with background.
    let mut buf: Vec<u8> = Vec::with_capacity(total);
    let n_pixels: usize = img_w * img_h;
    let mut p: usize = 0;
    while p < n_pixels
        invariant
            bg == (bg_r, bg_g, bg_b),
            n_pixels == img_w * img_h,
            p <= n_pixels,
            buf@.len() == 3 * p,
            forall|j: int| 0 <= j < 3 * p ==> #[trigger] buf@[j] == rgb_channel(bg, j % 3),
        decreases n_pixels - p,
    {
        let ghost before = buf@;
        buf.push(bg_r);
        buf.push(bg_g);
        buf.push(bg_b);
        assert forall|j: int| 0 <= j < 3 * p + 3 implies #[trigger] buf@[j] == rgb_channel(
            bg,
            j % 3,
        ) by {
            if j < 3 * p {
                assert(buf@[j] == before[j]);
            } else {
                lemma_fundamental_div_mod_converse(j, 3, p as int, j - 3 * p);
                assert(buf@ == before.push(bg_r).push(bg_g).push(bg_b));
                assert(j % 3 == j - 3 * p);
            }
        }
        p += 1;
    }
    assert forall|i: int| 0 <= i < total implies #[trigger] buf@[i] == stamped_byte(
        tiles,
        gx,
        ts_i,
        bg,
        i,
        0,
        0,
        0,
    ) by {
        lemma_byte_coords(i, gx, gy, ts_i);
    }

    let n: usize = if tile_colors.len() < n_cells {
        tile_colors.len()
    } else {
        n_cells
    };
    let mut idx: usize = 0;
    while idx < n
        invariant
            tiles == tile_colors@,
            ts == ts_i,
            grid_w == gx,
            0 < gx,
            0 < gy,
            0 < ts_i,
            img_w == gx * ts_i,
            img_h == gy * ts_i,
            total == img_w * img_h * 3,
            n_cells == gx * gy,
            n <= n_cells,
            n <= tiles.len(),
            idx <= n,
            buf@.len() == total,
            forall|i: int|
                0 <= i < total ==> #[trigger] buf@[i] == stamped_byte(
                    tiles,
                    gx,
                    ts_i,
                    bg,
                    i,
                    idx as int,
                    0,
                    0,
                ),
        decreases n - idx,
    {
        let (r, g, b, a) = tile_colors[idx];
        if a == 0 {
            // Transparent: no tile, the background stays.
            assert forall|i: int| 0 <= i < total implies #[trigger] buf@[i] == stamped_byte(
                tiles,
                gx,
                ts_i,
                bg,
                i,
                idx + 1,
                0,
                0,
            ) by {
                lemma_byte_coords(i, gx, gy, ts_i);
            }
        } else {
            let tx = idx % grid_w;
            let ty = idx / grid_w;
            proof {
                lemma_fundamental_div_mod(idx as int, gx);
                lemma_mul_is_commutative(gx, ty as int);
                lemma_multiply_divide_lt(idx as int, gx, gy);
            }
            let ghost txi = tx as int;
            let ghost tyi = ty as int;
            let mut oy: usize = 0;
            while oy < ts
                invariant
                    tiles == tile_colors@,
                    ts == ts_i,
                    0 < gx,
                    0 < gy,
                    0 < ts_i,
                    img_w == gx * ts_i,
                    img_h == gy * ts_i,
                    total == img_w * img_h * 3,
                    idx < tiles.len(),
                    tiles[idx as int] == (r, g, b, a),
                    a != 0,
                    0 <= txi < gx,
                    0 <= tyi < gy,
                    idx == tyi * gx + txi,
                    tx == txi,
                    ty == tyi,
                    oy <= ts,
                    buf@.len() == total,
                    forall|i: int|
                        0 <= i < total ==> #[trigger] buf@[i] == stamped_byte(
                            tiles,
                            gx,
                            ts_i,
                            bg,
                            i,
                            idx as int,
                            oy as int,
                            0,
                        ),
                decreases ts - oy,
            {
                proof {
                    lemma_block_row_fits(gx, gy, ts_i, txi, tyi, oy as int);
                }
                let px_base = tx * ts;
                let py_base = ty * ts;
                let row_start = ((py_base + oy) * img_w + px_base) * 3;
                // A row that would run past the canvas is skipped.
                if row_start + ts * 3 <= total {
                    let mut ox: usize = 0;
                    while ox < ts
                        invariant
                            tiles == tile_colors@,
                            ts == ts_i,
                            0 < gx,
                            0 < gy,
                            0 < ts_i,
                            img_w == gx * ts_i,
                            img_h == gy * ts_i,
                            total == img_w * img_h * 3,
                            idx < tiles.len(),
                            tiles[idx as int] == (r, g, b, a),
                            a != 0,
                            0 <= txi < gx,
                            0 <= tyi < gy,
                            idx == tyi * gx + txi,
                            oy < ts,
                            ox <= ts,
                            row_start == ((tyi * ts_i + oy) * img_w + txi * ts_i) * 3,
                            row_start + ts * 3 <= total,
                            buf@.len() == total,
                            forall|i: int|
                                0 <= i < total ==> #[trigger] buf@[i] == stamped_byte(
                                    tiles,
                                    gx,
                                    ts_i,
                                    bg,
                                    i,
                                    idx as int,
                                    oy as int,
                                    ox as int,
                                ),
                        decreases ts - ox,
                    {
                        let off = row_start + ox * 3;
                        let ghost pix = (tyi * ts_i + oy) * img_w + txi * ts_i + ox;
                        let ghost before = buf@;
                        buf.set(off, r);
                        buf.set(off + 1, g);
                        buf.set(off + 2, b);
                        proof {
                            assert(off == pix * 3);
                            lemma_decode_block_pixel(gx, ts_i, txi, tyi, ox as int, oy as int);
                        }
                        assert forall|i: int| 0 <= i < total implies #[trigger] buf@[i]
                            == stamped_byte(
                            tiles,
                            gx,
                            ts_i,
                            bg,
                            i,
                            idx as int,
                            oy as int,
                            ox + 1,
                        ) by {
                            lemma_byte_coords(i, gx, gy, ts_i);
                            lemma_fundamental_div_mod(i, 3);
                            if i / 3 == pix {
                                assert(i == off + i % 3);
                            } else {
                                if off <= i < off + 3 {
                                    lemma_fundamental_div_mod_converse(i, 3, pix, i - off);
                                }
                                assert(buf@[i] == before[i]);
                                let t = tile_of_pixel(i / 3, gx, ts_i);
                                let w = gx * ts_i;
                                if t == idx && (i / 3 / w) % ts_i == oy && (i / 3 % w) % ts_i
                                    == ox {
                                    lemma_encode_pixel(
                                        i / 3,
                                        gx,
                                        ts_i,
                                        txi,
                                        tyi,
                                        ox as int,
                                        oy as int,
                                    );
                                }
                            }
                        }
                        ox += 1;
                    }
                    assert forall|i: int| 0 <= i < total implies #[trigger] buf@[i]
                        == stamped_byte(tiles, gx, ts_i, bg, i, idx as int, oy + 1, 0) by {
                        lemma_byte_coords(i, gx, gy, ts_i);
                    }
                }
                oy += 1;
            }
            assert forall|i: int| 0 <= i < total implies #[trigger] buf@[i] == stamped_byte(
                tiles,
                gx,
                ts_i,
                bg,
                i,
                idx + 1,
                0,
                0,
            ) by {
                lemma_byte_coords(i, gx, gy, ts_i);
            }
        }
        idx += 1;
    }
    assert forall|i: int| 0 <= i < total implies #[trigger] buf@[i] == canvas_byte(
        tiles,
        gx,
        ts_i,
        bg,
        i,
    ) by {
        lemma_byte_coords(i, gx, gy, ts_i);
    }
    proof {
        lemma_mul_is_associative(gx * ts_i, gy, ts_i);
    }
    buf
}

/// Byte `c` of the pixel at offset `(ox, oy)` of tile `(tx, ty)`'s block is a
/// byte of the canvas, and that pixel is covered by that tile.
proof fn lemma_block_byte(
    tiles_x: int,
    tiles_y: int,
    ts: int,
    tx: int,
    ty: int,
    ox: int,
    oy: int,
    c: int,
)
    requires
        0 <= tx < tiles_x,
        0 <= ty < tiles_y,
        0 <= ox < ts,
        0 <= oy < ts,
        0 <= c < 3,
    ensures
        ({
            let i = block_byte_index(tiles_x, ts, tx, ty, ox, oy, c);
            &&& 0 <= i < canvas_len(tiles_x, tiles_y, ts)
            &&& i % 3 == c
            &&& tile_of_pixel(i / 3, tiles_x, ts) == ty * tiles_x + tx
        }),
{
    let w = tiles_x * ts;
    let pix = (ty * ts + oy) * w + tx * ts + ox;
    let i = block_byte_index(tiles_x, ts, tx, ty, ox, oy, c);
    lemma_block_row_fits(tiles_x, tiles_y, ts, tx, ty, oy);
    lemma_decode_block_pixel(tiles_x, ts, tx, ty, ox, oy);
    assert(0 <= (ty * ts + oy) * w) by (nonlinear_arith)
        requires
            0 <= ty * ts + oy,
            0 <= ox < ts,
            0 < tiles_x,
            w == tiles_x * ts,
    ;
    lemma_fundamental_div_mod_converse(i, 3, pix, c);
    lemma_mul_is_associative(w, tiles_y, ts);
}

/// A tile with a zero alpha leaves every byte of its block in the background
/// color, whatever its red, green and blue channels hold.
pub proof fn lemma_transparent_tile_keeps_background(
    tiles: Seq<(u8, u8, u8, u8)>,
    tiles_x: int,
    tiles_y: int,
    ts: int,
    bg: (u8, u8, u8),
    tx: int,
    ty: int,
    ox: int,
    oy: int,
    c: int,
)
    requires
        0 <= tx < tiles_x,
        0 <= ty < tiles_y,
        0 <= ox < ts,
        0 <= oy < ts,
        0 <= c < 3,
        ty * tiles_x + tx < tiles.len(),
        tiles[ty * tiles_x + tx].3 == 0,
    ensures
        canvas_byte(tiles, tiles_x, ts, bg, block_byte_index(tiles_x, ts, tx, ty, ox, oy, c))
            == rgb_channel(bg, c),
{
    lemma_block_byte(tiles_x, tiles_y, ts, tx, ty, ox, oy, c);
}

/// An opaque tile paints every byte of its `ts` by `ts` block with its own
/// color.
pub proof fn lemma_opaque_tile_fills_block(
    tiles: Seq<(u8, u8, u8, u8)>,
    tiles_x: int,
    tiles_y: int,
    ts: int,
    bg: (u8, u8, u8),
    tx: int,
    ty: int,
    ox: int,
    oy: int,
    c: int,
)
    requires
        0 <= tx < tiles_x,
        0 <= ty < tiles_y,
        0 <= ox < ts,
        0 <= oy < ts,
        0 <= c < 3,
        ty * tiles_x + tx < tiles.len(),
        tiles[ty * tiles_x + tx].3 != 0,
    ensures
        canvas_byte(tiles, tiles_x, ts, bg, block_byte_index(tiles_x, ts, tx, ty, ox, oy, c))
            == tile_channel(tiles[ty * tiles_x + tx], c),
{
    lemma_block_byte(tiles_x, tiles_y, ts, tx, ty, ox, oy, c);
}

/// A tile's color reaches no byte outside its own block: changing the color
/// of tile `t` leaves every other byte of the canvas as it was.
pub proof fn lemma_tile_does_not_bleed(
    tiles: Seq<(u8, u8, u8, u8)>,
    tiles_x: int,
    tiles_y: int,
    ts: int,
    bg: (u8, u8, u8),
    t: int,
    color: (u8, u8, u8, u8),
    i: int,
)
    requires
        0 < tiles_x,
        0 < ts,
        0 <= t < tiles.len(),
        0 <= i < canvas_len(tiles_x, tiles_y, ts),
        tile_of_pixel(i / 3, tiles_x, ts) != t,
    ensures
        canvas_byte(tiles.update(t, color), tiles_x, ts, bg, i) == canvas_byte(
            tiles,
            tiles_x,
            ts,
            bg,
            i,
        ),
{
    lemma_mul_is_associative(tiles_x * ts, tiles_y, ts);
    lemma_byte_coords(i, tiles_x, tiles_y, ts);
}

} // verus!
