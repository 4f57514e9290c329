//! Partition of the output image into horizontal bands, one per render worker.
//!
//! The frame buffer is a flat row-major RGB buffer: pixel `(x, y)` of an image
//! `width` pixels wide starts at element `(y * width + x) * 3`. The rows are cut
//! into contiguous bands of `rows_per_band` rows each (the last one may be
//! shorter); every worker receives exactly one band and writes only inside it.
use vstd::prelude::*;
use vstd::arithmetic::div_mod::lemma_fundamental_div_mod_converse;

verus! {

/// Number of colour channels stored per pixel.
pub const CHANNELS: usize = 3;

/// A horizontal band of image rows: rows `top .. top + rows`.
#[derive(Clone, Copy, Debug, PartialEq, Eq, Structural)]
pub struct Band {
    pub top: usize,
    pub rows: usize,
}

impl Band {
    /// Whether image row `y` lies inside this band.
    pub open spec fn contains_row(self, y: int) -> bool {
        self.top <= y < self.top + self.rows
    }

    /// Index of the first buffer element of this band.
    pub open spec fn start_spec(self, width: nat) -> int {
        self.top * width * CHANNELS
    }

    /// Index one past the last buffer element of this band.
    pub open spec fn end_spec(self, width: nat) -> int {
        (self.top + self.rows) * width * CHANNELS
    }

    /// The range of buffer elements `[start, end)` that hold this band's pixels
    /// for an image `width` pixels wide.
    pub fn span(&self, width: usize) -> (r: (usize, usize))
        requires
            self.top + self.rows <= usize::MAX,
            (self.top + self.rows) * width * CHANNELS <= usize::MAX,
        ensures
            r.0 == self.start_spec(width as nat),
            r.1 == self.end_spec(width as nat),
            r.0 <= r.1,
    {
        proof {
            assert(self.top * width * CHANNELS <= (self.top + self.rows) * width * CHANNELS)
                by (nonlinear_arith);
        }
        (self.top * width * CHANNELS, (self.top + self.rows) * width * CHANNELS)
    }
}

/// Rows given to each band: the image height divided by the worker count,
/// and never less than one row (so that more workers than rows still works).
pub open spec fn rows_per_band_spec(height: nat, thread_count: nat) -> nat {
    let per = if thread_count == 0 { height } else { height / thread_count };
    if per == 0 { 1 } else { per }
}

/// The `i`-th band of an image `height` rows tall cut every `per` rows.
pub open spec fn band_at(i: nat, height: nat, per: nat) -> Band {
    Band {
        top: (i * per) as usize,
        rows: (if height - i * per < per { height - i * per } else { per as int }) as usize,
    }
}

/// Number of bands: `height / per`, rounded up.
pub open spec fn band_count(height: nat, per: nat) -> nat
    recommends
        per > 0,
{
    if height == 0 { 0 } else { ((height - 1) as nat / per + 1) as nat }
}

/// Rows given to each band when `height` rows are shared among `thread_count`
/// workers.
pub fn rows_per_band(height: usize, thread_count: usize) -> (r: usize)
    ensures
        r == rows_per_band_spec(height as nat, thread_count as nat),
        r >= 1,
{
    let per = if thread_count == 0 { height } else { height / thread_count };
    if per == 0 { 1 } else { per }
}

proof fn lemma_band_count(height: nat, per: nat, n: nat)
    requires
        per > 0,
        n * per >= height,
        n == 0 || (n - 1) * per < height,
    ensures
        n == band_count(height, per),
{
    if height > 0 {
        assert(n > 0) by (nonlinear_arith)
            requires n * per >= height, height > 0, per > 0;
        let r = (height - 1) - (n - 1) * per;
        assert(0 <= r < per) by (nonlinear_arith)
            requires n * per >= height, (n - 1) * per < height, n > 0, per > 0,
                r == (height - 1) - (n - 1) * per;
        lemma_fundamental_div_mod_converse(height - 1, per as int, n - 1, r);
    }
}

/// Cuts the rows of an image `height` rows tall into contiguous bands, one per
/// worker: band `i` starts at row `i * per` and holds `per` rows, except the last
/// one, which holds what is left. `per` is `rows_per_band(height, thread_count)`.
pub fn partition_bands(height: usize, thread_count: usize) -> (bands: Vec<Band>)
    ensures
        bands@.len() == band_count(
            height as nat,
            rows_per_band_spec(height as nat, thread_count as nat),
        ),
        forall|i: int|
            0 <= i < bands@.len() ==> #[trigger] bands@[i] == band_at(
                i as nat,
                height as nat,
                rows_per_band_spec(height as nat, thread_count as nat),
            ),
{
    let per = rows_per_band(height, thread_count);
    let mut bands: Vec<Band> = Vec::new();
    let mut top: usize = 0;
    assert(bands@.len() * per == 0);
    while top < height
        invariant
            per >= 1,
            per == rows_per_band_spec(height as nat, thread_count as nat),
            top <= height,
            top < height ==> top == bands@.len() * per,
            top == height ==> bands@.len() * per >= height,
            bands@.len() == 0 || (bands@.len() - 1) * per < height,
            forall|i: int|
                0 <= i < bands@.len() ==> #[trigger] bands@[i] == band_at(
                    i as nat,
                    height as nat,
                    per as nat,
                ),
        decreases height - top,
    {
        let rows = if height - top < per { height - top } else { per };
        let ghost n = bands@.len();
        bands.push(Band { top, rows });
        proof {
            assert((n + 1) * per == n * per + per) by (nonlinear_arith);
            assert(bands@[n as int] == band_at(n, height as nat, per as nat));
        }
        top = top + rows;
    }
    proof {
        lemma_band_count(height as nat, per as nat, bands@.len());
    }
    bands
}

/// Every row of the image lies in exactly one band: band `y / per` holds row `y`
/// and no other band does, so the workers together write each row once.
pub proof fn lemma_row_in_exactly_one_band(height: nat, thread_count: nat, y: nat)
    requires
        y < height,
        height <= usize::MAX,
    ensures
        ({
            let per = rows_per_band_spec(height, thread_count);
            let i = y / per;
            &&& i < band_count(height, per)
            &&& band_at(i, height, per).contains_row(y as int)
            &&& forall|j: nat|
                j < band_count(height, per) && #[trigger] band_at(j, height, per).contains_row(
                    y as int,
                ) ==> j == i
        }),
{
    let per = rows_per_band_spec(height, thread_count);
    assert(per > 0);
    let i = y / per;
    vstd::arithmetic::div_mod::lemma_fundamental_div_mod(y as int, per as int);
    vstd::arithmetic::div_mod::lemma_mod_pos_bound(y as int, per as int);
    assert(y == i * per + y % per) by (nonlinear_arith)
        requires y == per * (y / per) + y % per, i == y / per;
    assert(i * per <= y < i * per + per) by (nonlinear_arith)
        requires y == i * per + y % per, 0 <= y % per < per;
    let n = band_count(height, per);
    let hm1 = (height - 1) as nat;
    assert(y <= hm1);
    assert(i <= hm1 / per) by {
        vstd::arithmetic::div_mod::lemma_div_is_ordered(y as int, hm1 as int, per as int);
    };
    assert(i < n);
    assert(per <= height) by {
        if thread_count > 0 {
            vstd::arithmetic::div_mod::lemma_div_is_ordered_by_denominator(height as int, 1, thread_count as int);
        }
    };
    assert(band_at(i, height, per).contains_row(y as int));
    assert forall|j: nat|
        j < n && #[trigger] band_at(j, height, per).contains_row(y as int) implies j == i by {
        let b = band_at(j, height, per);
        let q = hm1 / per;
        vstd::arithmetic::div_mod::lemma_fundamental_div_mod(hm1 as int, per as int);
        vstd::arithmetic::div_mod::lemma_mod_pos_bound(hm1 as int, per as int);
        assert(j * per <= hm1) by (nonlinear_arith)
            requires j <= q, hm1 == per * q + hm1 % per, hm1 % per >= 0, per > 0;
        assert(b.top == j * per);
        assert(b.rows <= per);
        assert(j * per <= y < j * per + per);
        lemma_fundamental_div_mod_converse(y as int, per as int, j as int, y - j * per);
    }
}

/// The bands' buffer ranges tile the frame buffer in order: the first starts at
/// element 0, each one ends where the next starts, and the last ends at the
/// buffer's end, `height * width * 3`.
pub proof fn lemma_spans_tile_buffer(height: nat, thread_count: nat, width: nat)
    requires
        height <= usize::MAX,
    ensures
        ({
            let per = rows_per_band_spec(height, thread_count);
            let n = band_count(height, per);
            &&& n > 0 ==> band_at(0, height, per).start_spec(width) == 0
            &&& forall|i: nat|
                i + 1 < n ==> #[trigger] band_at(i, height, per).end_spec(width) == band_at(
                    i + 1,
                    height,
                    per,
                ).start_spec(width)
            &&& n > 0 ==> band_at((n - 1) as nat, height, per).end_spec(width) == height * width
                * CHANNELS
        }),
{
    let per = rows_per_band_spec(height, thread_count);
    let n = band_count(height, per);
    if height > 0 {
        let hm1 = (height - 1) as nat;
        let q = hm1 / per;
        vstd::arithmetic::div_mod::lemma_fundamental_div_mod(hm1 as int, per as int);
        vstd::arithmetic::div_mod::lemma_mod_pos_bound(hm1 as int, per as int);
        assert(per <= height) by {
            if thread_count > 0 {
                vstd::arithmetic::div_mod::lemma_div_is_ordered_by_denominator(height as int, 1, thread_count as int);
            }
        };
        assert forall|i: nat| i + 1 < n implies #[trigger] band_at(i, height, per).end_spec(width)
            == band_at(i + 1, height, per).start_spec(width) by {
            assert((i + 1) * per <= hm1) by (nonlinear_arith)
                requires i + 1 <= q, hm1 == per * q + hm1 % per, hm1 % per >= 0, per > 0;
            assert((i + 1) * per == i * per + per) by (nonlinear_arith);
        }
        assert(q * per <= hm1) by (nonlinear_arith)
            requires hm1 == per * q + hm1 % per, hm1 % per >= 0;
        assert(per * q == q * per) by (nonlinear_arith);
        assert(height - q * per <= per);
        let last = band_at(q, height, per);
        assert(last.top + last.rows == height);
        assert((n - 1) as nat == q);
        assert(last.end_spec(width) == height * width * CHANNELS);
        assert(band_at(0, height, per).top == 0);
    }
}

/// Element offset of pixel `(x, y)` in a row-major RGB buffer `width` pixels wide.
pub open spec fn pixel_offset_spec(x: nat, y: nat, width: nat) -> int {
    (y * width + x) * CHANNELS
}

/// Offset of the first channel of pixel `(x, y)` in a row-major RGB buffer of
/// an image (or band) `width` pixels wide and `rows` rows tall.
pub fn pixel_offset(x: usize, y: usize, width: usize, rows: usize) -> (r: usize)
    requires
        x < width,
        y < rows,
        rows * width * CHANNELS <= usize::MAX,
    ensures
        r == pixel_offset_spec(x as nat, y as nat, width as nat),
        r + CHANNELS <= rows * width * CHANNELS,
{
    proof {
        assert((y * width + x) * CHANNELS + CHANNELS <= rows * width * CHANNELS)
            by (nonlinear_arith)
            requires x < width, y < rows;
    }
    (y * width + x) * CHANNELS
}

/// Distinct pixels of one band never share a buffer element: the channels of
/// pixel `(x1, y1)` and of pixel `(x2, y2)` are disjoint unless the pixels are the
/// same.
pub proof fn lemma_pixels_disjoint(x1: nat, y1: nat, x2: nat, y2: nat, width: nat, c1: nat, c2: nat)
    requires
        x1 < width,
        x2 < width,
        c1 < CHANNELS,
        c2 < CHANNELS,
        pixel_offset_spec(x1, y1, width) + c1 == pixel_offset_spec(x2, y2, width) + c2,
    ensures
        x1 == x2,
        y1 == y2,
        c1 == c2,
{
    let k1 = y1 * width + x1;
    let k2 = y2 * width + x2;
    lemma_fundamental_div_mod_converse((k1 * 3 + c1) as int, 3, k1 as int, c1 as int);
    lemma_fundamental_div_mod_converse((k2 * 3 + c2) as int, 3, k2 as int, c2 as int);
    lemma_fundamental_div_mod_converse(k1 as int, width as int, y1 as int, x1 as int);
    lemma_fundamental_div_mod_converse(k2 as int, width as int, y2 as int, x2 as int);
}

} // verus!
