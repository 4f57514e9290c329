//! The per-band render loop: every pixel of a band is shaded once and its three
//! channels are stored at the pixel's offset in the band's own buffer.
use vstd::prelude::*;
use vstd::arithmetic::div_mod::lemma_fundamental_div_mod_converse;
use crate::bands::{Band, CHANNELS, pixel_offset_spec};

verus! {

/// The three channels of a pixel as stored in `pixels` at `offset`.
pub open spec fn channels_at<T>(pixels: Seq<T>, offset: int) -> (T, T, T) {
    (pixels[offset], pixels[offset + 1], pixels[offset + 2])
}

/// The channels of the `p`-th pixel in row-major order.
pub open spec fn pixel_channels<T>(pixels: Seq<T>, p: int) -> (T, T, T) {
    channels_at(pixels, p * CHANNELS)
}

/// Fills the buffer of `band` (rows `band.top ..` of an image `width` pixels
/// wide, stored row-major with three channels per pixel) by calling
/// `shade(x, y)` once for each of its pixels, with `y` the image row. Pixel
/// `(x, y - band.top)` of the band then holds channels that `shade(x, y)` may
/// return; nothing else is written, and every element is written.
pub fn fill_band<T: Copy, F: Fn(usize, usize) -> (T, T, T)>(
    pixels: &mut [T],
    band: Band,
    width: usize,
    shade: F,
)
    requires
        old(pixels)@.len() == band.rows * width * CHANNELS,
        band.top + band.rows <= usize::MAX,
        forall|x: usize, y: usize|
            x < width && band.top <= y < band.top + band.rows ==> #[trigger] call_requires(
                shade,
                (x, y),
            ),
    ensures
        final(pixels)@.len() == old(pixels)@.len(),
        forall|x: nat, y: nat|
            x < width && y < band.rows ==> call_ensures(
                shade,
                (x as usize, (band.top + y) as usize),
                channels_at(final(pixels)@, #[trigger] pixel_offset_spec(x, y, width as nat)),
            ),
{
    let len = pixels.len();
    proof {
        assert(band.rows * width <= band.rows * width * CHANNELS) by (nonlinear_arith);
    }
    let count = band.rows * width;
    let mut q: usize = 0;
    while q < count
        invariant
            count == band.rows * width,
            pixels@.len() == count * CHANNELS,
            count * CHANNELS <= usize::MAX,
            band.top + band.rows <= usize::MAX,
            q <= count,
            forall|x: usize, y: usize|
                x < width && band.top <= y < band.top + band.rows ==> #[trigger] call_requires(
                    shade,
                    (x, y),
                ),
            forall|p: int|
                0 <= p < q ==> call_ensures(
                    shade,
                    ((p % width as int) as usize, (band.top + p / width as int) as usize),
                    #[trigger] pixel_channels(pixels@, p),
                ),
        decreases count - q,
    {
        let x = q % width;
        let y = q / width;
        proof {
            vstd::arithmetic::div_mod::lemma_fundamental_div_mod(q as int, width as int);
            assert(y < band.rows) by (nonlinear_arith)
                requires q < band.rows * width, q == width * y + x, x >= 0;
        }
        let shaded = shade(x, band.top + y);
        let ghost before = pixels@;
        let base = q * CHANNELS;
        pixels[base] = shaded.0;
        pixels[base + 1] = shaded.1;
        pixels[base + 2] = shaded.2;
        proof {
            assert forall|p: int| 0 <= p < q + 1 implies call_ensures(
                shade,
                ((p % width as int) as usize, (band.top + p / width as int) as usize),
                #[trigger] pixel_channels(pixels@, p),
            ) by {
                if p < q {
                    assert(pixel_channels(pixels@, p) == pixel_channels(before, p));
                } else {
                    assert(pixel_channels(pixels@, p) == shaded);
                }
            }
        }
        q = q + 1;
    }
    proof {
        assert forall|x: nat, y: nat| x < width && y < band.rows implies call_ensures(
            shade,
            (x as usize, (band.top + y) as usize),
            channels_at(pixels@, #[trigger] pixel_offset_spec(x, y, width as nat)),
        ) by {
            let p = (y * width + x) as int;
            assert(y * width + x < (y + 1) * width) by (nonlinear_arith)
                requires x < width;
            assert((y + 1) * width <= band.rows * width) by (nonlinear_arith)
                requires y < band.rows;
            lemma_fundamental_div_mod_converse(p, width as int, y as int, x as int);
            assert(pixel_offset_spec(x, y, width as nat) == p * 3);
            assert(pixel_channels(pixels@, p) == channels_at(pixels@, p * 3));
        }
    }
}

/// Blends a newly rendered frame into the running accumulation buffer, element
/// by element: afterwards `accum[i]` holds a value that `blend(accum[i],
/// frame[i])` may return, taken with the old `accum[i]`.
pub fn accumulate<T: Copy, F: Fn(T, T) -> T>(accum: &mut [T], frame: &[T], blend: F)
    requires
        old(accum)@.len() == frame@.len(),
        forall|i: int|
            0 <= i < frame@.len() ==> #[trigger] call_requires(blend, (old(accum)@[i], frame@[i])),
    ensures
        final(accum)@.len() == old(accum)@.len(),
        forall|i: int|
            0 <= i < frame@.len() ==> call_ensures(
                blend,
                (old(accum)@[i], frame@[i]),
                #[trigger] final(accum)@[i],
            ),
{
    let ghost start = accum@;
    let n = frame.len();
    let mut i: usize = 0;
    while i < n
        invariant
            n == frame@.len(),
            accum@.len() == n,
            start.len() == n,
            i <= n,
            forall|j: int| 0 <= j < n ==> #[trigger] call_requires(blend, (start[j], frame@[j])),
            forall|j: int| i <= j < n ==> accum@[j] == start[j],
            forall|j: int|
                0 <= j < i ==> call_ensures(blend, (start[j], frame@[j]), #[trigger] accum@[j]),
        decreases n - i,
    {
        let v = blend(accum[i], frame[i]);
        accum[i] = v;
        i = i + 1;
    }
}

/// Converts a row-major RGB frame `width` by `height` pixels into display
/// bytes whose rows start `pitch` bytes apart: channel `c` of pixel `(x, y)`
/// becomes byte `y * pitch + x * 3 + c`, a value that `quantize` may return for
/// the frame's element. The padding bytes at the end of each row keep their
/// value.
pub fn to_display<T: Copy, F: Fn(T) -> u8>(
    frame: &[T],
    width: usize,
    height: usize,
    pitch: usize,
    out: &mut [u8],
    quantize: F,
)
    requires
        frame@.len() == height * width * CHANNELS,
        width * CHANNELS <= pitch,
        old(out)@.len() == height * pitch,
        forall|v: T| #[trigger] call_requires(quantize, (v,)),
    ensures
        final(out)@.len() == old(out)@.len(),
        forall|x: nat, y: nat, c: nat|
            x < width && y < height && c < CHANNELS ==> call_ensures(
                quantize,
                (frame@[pixel_offset_spec(x, y, width as nat) + c],),
                #[trigger] final(out)@[y * pitch + x * CHANNELS + c],
            ),
        forall|y: nat, k: nat|
            y < height && width * CHANNELS <= k < pitch ==> #[trigger] final(out)@[y * pitch + k]
                == old(out)@[y * pitch + k],
{
    let ghost start = out@;
    let out_len = out.len();
    let frame_len = frame.len();
    let row_len = width * CHANNELS;
    assert(height * width * CHANNELS == height * row_len) by (nonlinear_arith)
        requires row_len == width * CHANNELS;
    let mut y: usize = 0;
    while y < height
        invariant
            frame@.len() == height * row_len,
            row_len == width * CHANNELS,
            row_len <= pitch,
            out@.len() == height * pitch,
            height * pitch <= usize::MAX,
            height * row_len <= usize::MAX,
            start.len() == height * pitch,
            y <= height,
            forall|v: T| #[trigger] call_requires(quantize, (v,)),
            forall|yy: nat, k: nat|
                y <= yy < height && k < pitch ==> #[trigger] out@[yy * pitch + k]
                    == start[yy * pitch + k],
            forall|yy: nat, k: nat|
                yy < y && row_len <= k < pitch ==> #[trigger] out@[yy * pitch + k]
                    == start[yy * pitch + k],
            forall|yy: nat, k: nat|
                yy < y && k < row_len ==> call_ensures(
                    quantize,
                    (frame@[yy * row_len + k],),
                    #[trigger] out@[yy * pitch + k],
                ),
        decreases height - y,
    {
        assert(y * pitch + pitch <= height * pitch) by (nonlinear_arith)
            requires y < height;
        assert(y * row_len + row_len <= height * row_len) by (nonlinear_arith)
            requires y < height;
        let out_base = y * pitch;
        let in_base = y * row_len;
        let ghost row_start = out@;
        let mut k: usize = 0;
        while k < row_len
            invariant
                frame@.len() == height * row_len,
                row_len == width * CHANNELS,
                row_len <= pitch,
                out@.len() == height * pitch,
                height * pitch <= usize::MAX,
                height * row_len <= usize::MAX,
                row_start.len() == height * pitch,
                y < height,
                out_base == y * pitch,
                in_base == y * row_len,
                y * pitch + pitch <= height * pitch,
                y * row_len + row_len <= height * row_len,
                k <= row_len,
                forall|v: T| #[trigger] call_requires(quantize, (v,)),
                forall|j: int|
                    0 <= j < out@.len() && !(out_base <= j < out_base + k) ==> #[trigger] out@[j]
                        == row_start[j],
                forall|kk: int|
                    0 <= kk < k ==> call_ensures(
                        quantize,
                        (frame@[in_base + kk],),
                        #[trigger] out@[out_base + kk],
                    ),
            decreases row_len - k,
        {
            let v = quantize(frame[in_base + k]);
            out[out_base + k] = v;
            k = k + 1;
        }
        proof {
            assert forall|yy: nat, k2: nat| y + 1 <= yy < height && k2 < pitch implies #[trigger] out@[
                yy * pitch + k2
            ] == start[yy * pitch + k2] by {
                assert(yy * pitch + k2 >= y * pitch + pitch) by (nonlinear_arith)
                    requires yy >= y + 1;
                assert(yy * pitch + k2 < height * pitch) by (nonlinear_arith)
                    requires yy < height, k2 < pitch;
                assert(row_start[yy * pitch + k2] == start[yy * pitch + k2]);
            }
            assert forall|yy: nat, k2: nat| yy < y + 1 && row_len <= k2 < pitch implies #[trigger] out@[
                yy * pitch + k2
            ] == start[yy * pitch + k2] by {
                if yy < y {
                    assert(yy * pitch + k2 < y * pitch) by (nonlinear_arith)
                        requires yy < y, k2 < pitch;
                    assert(row_start[yy * pitch + k2] == start[yy * pitch + k2]);
                } else {
                    assert(row_start[yy * pitch + k2] == start[yy * pitch + k2]);
                }
            }
            assert forall|yy: nat, k2: nat| yy < y + 1 && k2 < row_len implies call_ensures(
                quantize,
                (frame@[yy * row_len + k2],),
                #[trigger] out@[yy * pitch + k2],
            ) by {
                if yy < y {
                    assert(yy * pitch + k2 < y * pitch) by (nonlinear_arith)
                        requires yy < y, k2 < row_len, row_len <= pitch;
                    assert(out@[yy * pitch + k2] == row_start[yy * pitch + k2]);
                } else {
                    assert(out@[out_base + k2] == out@[yy * pitch + k2]);
                }
            }
        }
        y = y + 1;
    }
    proof {
        assert forall|x: nat, yy: nat, c: nat| x < width && yy < height && c < CHANNELS implies call_ensures(
            quantize,
            (frame@[pixel_offset_spec(x, yy, width as nat) + c],),
            #[trigger] out@[yy * pitch + x * CHANNELS + c],
        ) by {
            let k2 = (x * CHANNELS + c) as nat;
            assert(k2 < row_len) by (nonlinear_arith)
                requires x < width, c < 3, row_len == width * 3, k2 == x * 3 + c;
            assert(pixel_offset_spec(x, yy, width as nat) + c == yy * row_len + k2) by (nonlinear_arith)
                requires row_len == width * 3, k2 == x * 3 + c;
            assert(yy * pitch + x * CHANNELS + c == yy * pitch + k2);
        }
    }
}

/// Sum of the first `n` per-worker ray counts.
pub open spec fn rays_sum(counts: Seq<u64>, n: nat) -> int
    decreases n,
{
    if n == 0 || n > counts.len() {
        0
    } else {
        rays_sum(counts, (n - 1) as nat) + counts[n - 1]
    }
}

/// Total number of rays traced in a frame, from the per-worker counts; none if
/// the total does not fit in a `u64`.
pub fn total_rays(counts: &[u64]) -> (r: Option<u64>)
    ensures
        r == (if rays_sum(counts@, counts@.len()) <= u64::MAX {
            Some(rays_sum(counts@, counts@.len()) as u64)
        } else {
            None::<u64>
        }),
{
    let mut total: u64 = 0;
    let mut i: usize = 0;
    while i < counts.len()
        invariant
            i <= counts@.len(),
            total == rays_sum(counts@, i as nat),
        decreases counts@.len() - i,
    {
        if total > u64::MAX - counts[i] {
            proof {
                lemma_rays_sum_grows(counts@, (i + 1) as nat, counts@.len());
            }
            return None;
        }
        total = total + counts[i];
        i = i + 1;
    }
    Some(total)
}

/// Ray counts are never negative, so a longer prefix never sums to less.
proof fn lemma_rays_sum_grows(counts: Seq<u64>, m: nat, n: nat)
    requires
        m <= n <= counts.len(),
    ensures
        rays_sum(counts, m) <= rays_sum(counts, n),
    decreases n - m,
{
    if m < n {
        lemma_rays_sum_grows(counts, m, (n - 1) as nat);
    }
}

} // verus!
