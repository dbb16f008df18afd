//! Framing RGB pixel rows as filter-tagged scanlines, and compressing them
//! into a zlib stream ready for an image container's data block.
use vstd::arithmetic::mul::*;
use vstd::prelude::*;

verus! {

/// The filter-type byte that opens each scanline: the row is stored as is.
pub const FILTER_NONE: u8 = 0;

/// The compression level used for scanline data, a balance of speed and ratio.
pub const COMPRESSION_LEVEL: u8 = 6;

/// The `3 * w` pixel bytes of row `y`, taken from `px` where it holds them and
/// zero where it ends early.
pub open spec fn padded_row(px: Seq<u8>, w: nat, y: nat) -> Seq<u8> {
    Seq::new(
        3 * w,
        |j: int|
            if y * (3 * w) + j < px.len() {
                px[y * (3 * w) + j]
            } else {
                0u8
            },
    )
}

/// The first `h` rows of a `w`-pixel-wide image, each opened by the filter
/// byte and followed by its padded pixel bytes.
pub open spec fn raw_scanlines(px: Seq<u8>, w: nat, h: nat) -> Seq<u8>
    decreases h,
{
    if h == 0 {
        Seq::empty()
    } else {
        raw_scanlines(px, w, (h - 1) as nat) + seq![FILTER_NONE] + padded_row(
            px,
            w,
            (h - 1) as nat,
        )
    }
}

/// The zlib stream that miniz_oxide produces for `data` at `level`.
pub uninterp spec fn zlib_compressed(data: Seq<u8>, level: u8) -> Seq<u8>;

/// Relies on miniz_oxide::deflate::compress_to_vec_zlib: the zlib stream of
/// `data` at a level of 0 to 10, which depends on its two arguments alone.
#[verifier::external_body]
fn compress_zlib(data: &[u8], level: u8) -> (r: Vec<u8>)
    requires
        level <= 10,
    ensures
        r@ == zlib_compressed(data@, level),
{
    miniz_oxide::deflate::compress_to_vec_zlib(data, level)
}

/// `h` scanlines of `w` pixels take `h * (3 * w + 1)` bytes.
pub proof fn lemma_raw_scanlines_len(px: Seq<u8>, w: nat, h: nat)
    ensures
        raw_scanlines(px, w, h).len() == h * (3 * w + 1),
    decreases h,
{
    if h > 0 {
        lemma_raw_scanlines_len(px, w, (h - 1) as nat);
        let k = 3 * w + 1;
        let hp = (h - 1) as nat;
        assert(hp * k + k == h * k) by (nonlinear_arith)
            requires
                hp + 1 == h,
        ;
        assert(padded_row(px, w, hp).len() == 3 * w);
        assert(raw_scanlines(px, w, h) == raw_scanlines(px, w, hp) + seq![FILTER_NONE]
            + padded_row(px, w, hp));
        assert(raw_scanlines(px, w, hp).len() == hp * k);
        assert(h * (3 * w + 1) == h * k);
    } else {
        assert(h * (3 * w + 1) == 0) by (nonlinear_arith)
            requires
                h == 0,
        ;
    }
}

/// Row `y` of `h` scanlines starts at byte `y * (3 * w + 1)`: the filter byte,
/// then the row's pixel bytes from `px`, zero-padded where `px` is short.
pub proof fn lemma_scanline_row(px: Seq<u8>, w: nat, h: nat, y: nat)
    requires
        y < h,
    ensures
        ({
            let raw = raw_scanlines(px, w, h);
            let k = (3 * w + 1) as int;
            &&& raw.len() == h * k
            &&& raw[y * k] == FILTER_NONE
            &&& raw.subrange(y * k + 1, y * k + k) == padded_row(px, w, y)
        }),
    decreases h,
{
    let k = (3 * w + 1) as int;
    let hp = (h - 1) as nat;
    lemma_raw_scanlines_len(px, w, h);
    lemma_raw_scanlines_len(px, w, hp);
    let prev = raw_scanlines(px, w, hp);
    let raw = raw_scanlines(px, w, h);
    assert(raw == prev + seq![FILTER_NONE] + padded_row(px, w, hp));
    if y == hp {
        assert(raw.subrange(y * k + 1, y * k + k) =~= padded_row(px, w, y));
    } else {
        lemma_scanline_row(px, w, hp, y);
        assert(y * k + k <= hp * k) by (nonlinear_arith)
            requires
                y < hp,
                0 < k,
        ;
        assert(raw.subrange(y * k + 1, y * k + k) =~= prev.subrange(y * k + 1, y * k + k));
    }
}

/// An image with no columns or no rows frames as one filter byte per row and
/// nothing else, whatever `px` holds.
pub proof fn lemma_empty_image_scanlines(px: Seq<u8>, w: nat, h: nat)
    requires
        w == 0 || h == 0,
    ensures
        raw_scanlines(px, w, h) == Seq::new(h, |k: int| FILTER_NONE),
    decreases h,
{
    if h > 0 {
        let hp = (h - 1) as nat;
        lemma_empty_image_scanlines(px, w, hp);
        assert(padded_row(px, w, hp) =~= Seq::<u8>::empty());
        assert(raw_scanlines(px, w, h) =~= Seq::new(h, |k: int| FILTER_NONE));
    } else {
        assert(raw_scanlines(px, w, h) =~= Seq::new(h, |k: int| FILTER_NONE));
    }
}

/// Builds the scanlines of a `width` by `height` RGB image: for each row, the
/// filter byte, then the row's `3 * width` bytes of `image_data`, padded with
/// zeros where `image_data` ends before the row does.
pub fn frame_scanlines(image_data: &[u8], width: u32, height: u32) -> (raw: Vec<u8>)
    requires
        height * (3 * width + 1) <= usize::MAX,
    ensures
        raw@ == raw_scanlines(image_data@, width as nat, height as nat),
{
    let ghost px = image_data@;
    let ghost w = width as nat;
    if height == 0 {
        return Vec::new();
    }
    proof {
        lemma_mul_inequality(1, height as int, 3 * width + 1);
    }
    let row_bytes: usize = (width as usize) * 3;
    let h = height as usize;
    let mut raw: Vec<u8> = Vec::with_capacity(h * (row_bytes + 1));
    let mut y: usize = 0;
    while y < h
        invariant
            px == image_data@,
            w == width,
            row_bytes == 3 * w,
            h == height,
            h * (row_bytes + 1) <= usize::MAX,
            y <= h,
            raw@ == raw_scanlines(px, w, y as nat),
        decreases h - y,
    {
        proof {
            lemma_mul_inequality(y as int, h as int, row_bytes as int);
            lemma_mul_inequality(h as int, h as int, row_bytes as int);
            assert(h * row_bytes <= h * (row_bytes + 1)) by (nonlinear_arith)
                requires
                    0 <= h,
            ;
        }
        let ghost prefix = raw@ + seq![FILTER_NONE];
        let ghost row = padded_row(px, w, y as nat);
        raw.push(FILTER_NONE);
        let start: usize = y * row_bytes;
        let available: usize = if start < image_data.len() {
            let rest = image_data.len() - start;
            if rest < row_bytes {
                rest
            } else {
                row_bytes
            }
        } else {
            0
        };
        let mut j: usize = 0;
        while j < available
            invariant
                px == image_data@,
                row_bytes == 3 * w,
                start == y * row_bytes,
                available <= row_bytes,
                available == 0 || start + available <= px.len(),
                start + available <= usize::MAX,
                row == padded_row(px, w, y as nat),
                j <= available,
                raw@ == prefix + row.subrange(0, j as int),
            decreases available - j,
        {
            raw.push(image_data[start + j]);
            j += 1;
            assert(raw@ =~= prefix + row.subrange(0, j as int));
        }
        while j < row_bytes
            invariant
                px == image_data@,
                row_bytes == 3 * w,
                start == y * row_bytes,
                available <= row_bytes,
                available <= j <= row_bytes,
                start < px.len() ==> available == row_bytes || start + available == px.len(),
                start >= px.len() ==> available == 0,
                row == padded_row(px, w, y as nat),
                raw@ == prefix + row.subrange(0, j as int),
            decreases row_bytes - j,
        {
            raw.push(0u8);
            j += 1;
            assert(raw@ =~= prefix + row.subrange(0, j as int));
        }
        assert(row.subrange(0, row_bytes as int) =~= row);
        y += 1;
    }
    raw
}

/// Encodes a `width` by `height` RGB image as the compressed data of an image
/// container: its scanlines, each opened by the filter byte and padded with
/// zeros where `image_data` is short, compressed as one zlib stream.
pub fn assemble_png_idat(image_data: &[u8], width: u32, height: u32) -> (r: Vec<u8>)
    requires
        height * (3 * width + 1) <= usize::MAX,
    ensures
        r@ == zlib_compressed(
            raw_scanlines(image_data@, width as nat, height as nat),
            COMPRESSION_LEVEL,
        ),
{
    let raw = frame_scanlines(image_data, width, height);
    compress_zlib(raw.as_slice(), COMPRESSION_LEVEL)
}

} // verus!
