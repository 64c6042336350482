use vstd::prelude::*;

verus! {

/// Index of channel `c` of pixel `(x, y)` in a tightly packed RGB buffer of row width `w`.
pub open spec fn channel_index(w: int, x: int, y: int, c: int) -> int {
    (y * w + x) * 3 + c
}

/// True when `(x, y)` lies inside a `w` by `h` image.
pub open spec fn in_image(w: int, h: int, x: int, y: int) -> bool {
    0 <= x < w && 0 <= y < h
}

/// Value of channel `c` of pixel `(x, y)`.
pub open spec fn channel(img: Seq<u8>, w: int, x: int, y: int, c: int) -> int {
    img[channel_index(w, x, y, c)] as int
}

/// A pixel is lit when it lies inside the image and is not pure black.
pub open spec fn lit(img: Seq<u8>, w: int, h: int, x: int, y: int) -> bool {
    &&& in_image(w, h, x, y)
    &&& (channel(img, w, x, y, 0) > 0 || channel(img, w, x, y, 1) > 0 || channel(img, w, x, y, 2) > 0)
}

/// Horizontal offset (-1, 0 or 1) of the `k`-th cell of a 3x3 window, row by row.
pub open spec fn window_dx(k: int) -> int {
    k % 3 - 1
}

/// Vertical offset (-1, 0 or 1) of the `k`-th cell of a 3x3 window, row by row.
pub open spec fn window_dy(k: int) -> int {
    k / 3 - 1
}

/// Sum of channel `c` over the lit cells among the first `k` cells of the 3x3 window around `(x, y)`.
pub open spec fn window_sum(img: Seq<u8>, w: int, h: int, x: int, y: int, c: int, k: int) -> int
    decreases k,
{
    if k <= 0 {
        0
    } else {
        let px = x + window_dx(k - 1);
        let py = y + window_dy(k - 1);
        window_sum(img, w, h, x, y, c, k - 1) + if lit(img, w, h, px, py) {
            channel(img, w, px, py, c)
        } else {
            0
        }
    }
}

/// Number of lit cells among the first `k` cells of the 3x3 window around `(x, y)`.
pub open spec fn window_count(img: Seq<u8>, w: int, h: int, x: int, y: int, k: int) -> int
    decreases k,
{
    if k <= 0 {
        0
    } else {
        let px = x + window_dx(k - 1);
        let py = y + window_dy(k - 1);
        window_count(img, w, h, x, y, k - 1) + if lit(img, w, h, px, py) {
            1int
        } else {
            0
        }
    }
}

/// What the blur leaves in channel `c` of pixel `(x, y)`: black pixels stay as they are, every
/// other pixel becomes the (rounded down) mean of the non-black pixels of its 3x3 neighbourhood.
pub open spec fn blurred_channel(img: Seq<u8>, w: int, h: int, x: int, y: int, c: int) -> int {
    if !lit(img, w, h, x, y) {
        channel(img, w, x, y, c)
    } else {
        window_sum(img, w, h, x, y, c, 9) / window_count(img, w, h, x, y, 9)
    }
}

/// The whole image after one blur pass: every byte of a pixel is blurred as
/// [`blurred_channel`] says, and bytes past the `w` by `h` image are unchanged.
pub open spec fn blurred_image(img: Seq<u8>, w: int, h: int) -> Seq<u8> {
    Seq::new(
        img.len(),
        |i: int|
            if i < w * h * 3 {
                blurred_channel(img, w, h, (i / 3) % w, (i / 3) / w, i % 3) as u8
            } else {
                img[i]
            },
    )
}

/// Every byte below `w * h * 3` belongs to exactly one channel of one pixel.
pub proof fn lemma_byte_to_pixel(w: int, h: int, i: int)
    requires
        0 <= i < w * h * 3,
        0 <= w,
        0 <= h,
    ensures
        in_image(w, h, (i / 3) % w, (i / 3) / w),
        channel_index(w, (i / 3) % w, (i / 3) / w, i % 3) == i,
{
    let p = i / 3;
    assert(w > 0) by (nonlinear_arith)
        requires 0 <= i < w * h * 3, 0 <= w, 0 <= h;
    assert(0 <= p < w * h);
    assert(p / w < h) by (nonlinear_arith)
        requires 0 <= p < w * h, w > 0;
    assert((p / w) * w + p % w == p) by (nonlinear_arith)
        requires w > 0;
}

proof fn lemma_pixel_index_bounds(w: int, h: int, x: int, y: int)
    requires
        in_image(w, h, x, y),
    ensures
        0 <= y * w + x < w * h,
        0 <= y * w,
{
    assert(0 <= y * w + x < w * h) by (nonlinear_arith)
        requires
            0 <= x < w,
            0 <= y < h,
    ;
    assert(0 <= y * w) by (nonlinear_arith)
        requires
            0 <= x < w,
            0 <= y < h,
    ;
}

/// Two different pixels of an image never share a byte.
proof fn lemma_pixel_index_distinct(w: int, h: int, x1: int, y1: int, x2: int, y2: int)
    requires
        in_image(w, h, x1, y1),
        in_image(w, h, x2, y2),
        y1 * w + x1 == y2 * w + x2,
    ensures
        x1 == x2,
        y1 == y2,
{
    assert(y1 == y2 && x1 == x2) by (nonlinear_arith)
        requires
            0 <= x1 < w,
            0 <= x2 < w,
            0 <= y1 < h,
            0 <= y2 < h,
            y1 * w + x1 == y2 * w + x2,
    ;
}

proof fn lemma_window_bounds(img: Seq<u8>, w: int, h: int, x: int, y: int, c: int, k: int)
    requires
        0 <= k <= 9,
        0 <= c < 3,
        w >= 0,
        h >= 0,
        img.len() >= w * h * 3,
    ensures
        0 <= window_count(img, w, h, x, y, k) <= k,
        0 <= window_sum(img, w, h, x, y, c, k) <= 255 * window_count(img, w, h, x, y, k),
    decreases k,
{
    if k > 0 {
        lemma_window_bounds(img, w, h, x, y, c, k - 1);
        let px = x + window_dx(k - 1);
        let py = y + window_dy(k - 1);
        if lit(img, w, h, px, py) {
            lemma_pixel_index_bounds(w, h, px, py);
            assert(0 <= channel_index(w, px, py, c) < img.len()) by (nonlinear_arith)
                requires
                    0 <= py * w + px < w * h,
                    0 <= c < 3,
                    img.len() >= w * h * 3,
            ;
        }
    }
}

/// Once a pixel is known to be lit, it counts itself, so its neighbourhood count is positive.
proof fn lemma_lit_center_counts(img: Seq<u8>, w: int, h: int, x: int, y: int)
    requires
        lit(img, w, h, x, y),
    ensures
        window_count(img, w, h, x, y, 9) >= 1,
    decreases 0int,
{
    reveal_with_fuel(window_count, 10);
    assert(window_dx(4) == 0 && window_dy(4) == 0);
}

/// Blurs the non-black pixels of an RGB image (3 bytes per pixel, row-major) in place: each such
/// pixel becomes the channel-wise mean of the non-black pixels of its 3x3 neighbourhood, read from
/// the image as it was before the call. Black pixels, and bytes past the image, are left alone.
pub fn selective_blur(data: &mut [u8], width: usize, height: usize)
    requires
        width * height * 3 <= old(data)@.len(),
    ensures
        final(data)@.len() == old(data)@.len(),
        forall|x: int, y: int, c: int|
            #![trigger final(data)@[channel_index(width as int, x, y, c)]]
            in_image(width as int, height as int, x, y) && 0 <= c < 3 ==> final(data)@[channel_index(
                width as int,
                x,
                y,
                c,
            )] as int == blurred_channel(old(data)@, width as int, height as int, x, y, c),
        forall|i: int|
            width * height * 3 <= i < old(data)@.len() ==> #[trigger] final(data)@[i] == old(data)@[i],
        final(data)@ == blurred_image(old(data)@, width as int, height as int),
{
    let total = data.len();
    let original = vstd::slice::slice_to_vec(data);
    let ghost orig = original@;
    let ghost w = width as int;
    let ghost h = height as int;
    let mut y: usize = 0;
    while y < height
        invariant
            orig == old(data)@,
            original@ == orig,
            data@.len() == orig.len(),
            total == orig.len(),
            w == width,
            h == height,
            width * height * 3 <= orig.len(),
            y <= height,
            forall|px: int, py: int, c: int|
                #![trigger data@[channel_index(w, px, py, c)]]
                in_image(w, h, px, py) && 0 <= c < 3 ==> data@[channel_index(w, px, py, c)] as int
                    == if py < y {
                    blurred_channel(orig, w, h, px, py, c)
                } else {
                    channel(orig, w, px, py, c)
                },
            forall|i: int| w * h * 3 <= i < orig.len() ==> #[trigger] data@[i] == orig[i],
        decreases height - y,
    {
        let mut x: usize = 0;
        while x < width
            invariant
                orig == old(data)@,
                original@ == orig,
                data@.len() == orig.len(),
                total == orig.len(),
                w == width,
                h == height,
                width * height * 3 <= orig.len(),
                y < height,
                x <= width,
                forall|px: int, py: int, c: int|
                    #![trigger data@[channel_index(w, px, py, c)]]
                    in_image(w, h, px, py) && 0 <= c < 3 ==> data@[channel_index(w, px, py, c)] as int
                        == if py < y || (py == y && px < x) {
                        blurred_channel(orig, w, h, px, py, c)
                    } else {
                        channel(orig, w, px, py, c)
                    },
                forall|i: int| w * h * 3 <= i < orig.len() ==> #[trigger] data@[i] == orig[i],
            decreases width - x,
        {
            proof {
                lemma_pixel_index_bounds(w, h, x as int, y as int);
                assert(width * 3 <= total && height * 3 <= total) by (nonlinear_arith)
                    requires
                        width * height * 3 <= total,
                        x < width,
                        y < height,
                ;
                assert((y * width + x) * 3 + 2 < width * height * 3) by (nonlinear_arith)
                    requires
                        y * width + x < width * height,
                ;
            }
            let idx = (y * width + x) * 3;
            assert(idx == channel_index(w, x as int, y as int, 0));
            if !(original[idx] == 0 && original[idx + 1] == 0 && original[idx + 2] == 0) {
                let mut r_sum: u32 = 0;
                let mut g_sum: u32 = 0;
                let mut b_sum: u32 = 0;
                let mut count: u32 = 0;
                let mut k: usize = 0;
                while k < 9
                    invariant
                        original@ == orig,
                        total == orig.len(),
                        width * 3 <= total,
                        height * 3 <= total,
                        w == width,
                        h == height,
                        width * height * 3 <= orig.len(),
                        x < width,
                        y < height,
                        k <= 9,
                        count as int == window_count(orig, w, h, x as int, y as int, k as int),
                        r_sum as int == window_sum(orig, w, h, x as int, y as int, 0, k as int),
                        g_sum as int == window_sum(orig, w, h, x as int, y as int, 1, k as int),
                        b_sum as int == window_sum(orig, w, h, x as int, y as int, 2, k as int),
                    decreases 9 - k,
                {
                    proof {
                        lemma_window_bounds(orig, w, h, x as int, y as int, 0, k as int);
                        lemma_window_bounds(orig, w, h, x as int, y as int, 1, k as int);
                        lemma_window_bounds(orig, w, h, x as int, y as int, 2, k as int);
                    }
                    let kx = k % 3;
                    let ky = k / 3;
                    // neighbour (x + kx - 1, y + ky - 1), tested for lying inside the image
                    if x + kx >= 1 && x + kx - 1 < width && y + ky >= 1 && y + ky - 1 < height {
                        let px = x + kx - 1;
                        let py = y + ky - 1;
                        proof {
                            lemma_pixel_index_bounds(w, h, px as int, py as int);
                            assert((py * width + px) * 3 + 2 < width * height * 3) by (nonlinear_arith)
                                requires
                                    py * width + px < width * height,
                            ;
                        }
                        let k_idx = (py * width + px) * 3;
                        let r = original[k_idx];
                        let g = original[k_idx + 1];
                        let b = original[k_idx + 2];
                        if r > 0 || g > 0 || b > 0 {
                            r_sum += r as u32;
                            g_sum += g as u32;
                            b_sum += b as u32;
                            count += 1;
                        }
                    }
                    k += 1;
                }
                proof {
                    lemma_window_bounds(orig, w, h, x as int, y as int, 0, 9);
                    lemma_window_bounds(orig, w, h, x as int, y as int, 1, 9);
                    lemma_window_bounds(orig, w, h, x as int, y as int, 2, 9);
                    lemma_lit_center_counts(orig, w, h, x as int, y as int);
                    assert(r_sum / count <= 255) by (nonlinear_arith)
                        requires r_sum <= 255 * count, count >= 1;
                    assert(g_sum / count <= 255) by (nonlinear_arith)
                        requires g_sum <= 255 * count, count >= 1;
                    assert(b_sum / count <= 255) by (nonlinear_arith)
                        requires b_sum <= 255 * count, count >= 1;
                }
                data[idx] = (r_sum / count) as u8;
                data[idx + 1] = (g_sum / count) as u8;
                data[idx + 2] = (b_sum / count) as u8;
            }
            proof {
                assert forall|px: int, py: int, c: int|
                    #![trigger data@[channel_index(w, px, py, c)]]
                    in_image(w, h, px, py) && 0 <= c < 3 implies data@[channel_index(w, px, py, c)] as int
                        == if py < y || (py == y && px < x + 1) {
                        blurred_channel(orig, w, h, px, py, c)
                    } else {
                        channel(orig, w, px, py, c)
                    } by {
                    lemma_pixel_index_bounds(w, h, px, py);
                    if px != x || py != y {
                        if py * w + px == y * w + x {
                            lemma_pixel_index_distinct(w, h, px, py, x as int, y as int);
                        }
                    }
                }
            }
            x += 1;
        }
        y += 1;
    }
    proof {
        assert forall|px: int, py: int, c: int|
            #![trigger data@[channel_index(w, px, py, c)]]
            in_image(w, h, px, py) && 0 <= c < 3 implies data@[channel_index(w, px, py, c)] as int
                == blurred_channel(orig, w, h, px, py, c) by {}
        assert forall|i: int| 0 <= i < data@.len() implies data@[i] == blurred_image(orig, w, h)[i] by {
            if i < w * h * 3 {
                lemma_byte_to_pixel(w, h, i);
                let px = (i / 3) % w;
                let py = (i / 3) / w;
                let c = i % 3;
                assert(data@[channel_index(w, px, py, c)] as int == blurred_channel(orig, w, h, px, py, c));
                lemma_window_bounds(orig, w, h, px, py, c, 9);
                if lit(orig, w, h, px, py) {
                    lemma_lit_center_counts(orig, w, h, px, py);
                    let s = window_sum(orig, w, h, px, py, c, 9);
                    let n = window_count(orig, w, h, px, py, 9);
                    assert(0 <= s / n <= 255) by (nonlinear_arith)
                        requires 0 <= s <= 255 * n, n >= 1;
                }
            }
        }
        assert(data@ =~= blurred_image(orig, w, h));
    }
}

/// Channel `c` of the colour `(r, g, b)`.
pub open spec fn colour_channel(r: u8, g: u8, b: u8, c: int) -> int {
    if c == 0 {
        r as int
    } else if c == 1 {
        g as int
    } else {
        b as int
    }
}

/// In an image of one colour, the lit cells of a window sum to the colour times their number.
proof fn lemma_uniform_window(img: Seq<u8>, w: int, h: int, x: int, y: int, c: int, k: int, r: u8, g: u8, b: u8)
    requires
        0 <= c < 3,
        forall|px: int, py: int, cc: int|
            in_image(w, h, px, py) && 0 <= cc < 3 ==> #[trigger] img[channel_index(w, px, py, cc)] as int
                == colour_channel(r, g, b, cc),
    ensures
        window_sum(img, w, h, x, y, c, k) == colour_channel(r, g, b, c) * window_count(img, w, h, x, y, k),
    decreases k,
{
    if k > 0 {
        lemma_uniform_window(img, w, h, x, y, c, k - 1, r, g, b);
        let px = x + window_dx(k - 1);
        let py = y + window_dy(k - 1);
        if lit(img, w, h, px, py) {
            assert(img[channel_index(w, px, py, c)] as int == colour_channel(r, g, b, c));
        }
        let v = colour_channel(r, g, b, c);
        let n = window_count(img, w, h, x, y, k - 1);
        assert(v * n + v == v * (n + 1)) by (nonlinear_arith);
    }
}

/// The number of lit cells of a window never drops as cells are added.
proof fn lemma_window_count_grows(img: Seq<u8>, w: int, h: int, x: int, y: int, j: int, k: int)
    requires
        0 <= j <= k,
    ensures
        window_count(img, w, h, x, y, j) <= window_count(img, w, h, x, y, k),
    decreases k - j,
{
    if j < k {
        lemma_window_count_grows(img, w, h, x, y, j, k - 1);
    }
}

/// An image of one colour, black or not, is left as it is by the blur.
pub proof fn law_uniform_image_unchanged(img: Seq<u8>, w: int, h: int, r: u8, g: u8, b: u8)
    requires
        w >= 0,
        h >= 0,
        img.len() >= w * h * 3,
        forall|x: int, y: int, c: int|
            in_image(w, h, x, y) && 0 <= c < 3 ==> #[trigger] img[channel_index(w, x, y, c)] as int
                == colour_channel(r, g, b, c),
    ensures
        blurred_image(img, w, h) == img,
{
    assert forall|i: int| 0 <= i < img.len() implies #[trigger] blurred_image(img, w, h)[i] == img[i] by {
        if i < w * h * 3 {
            lemma_byte_to_pixel(w, h, i);
            let x = (i / 3) % w;
            let y = (i / 3) / w;
            let c = i % 3;
            assert(img[channel_index(w, x, y, c)] as int == colour_channel(r, g, b, c));
            if lit(img, w, h, x, y) {
                lemma_uniform_window(img, w, h, x, y, c, 9, r, g, b);
                assert(window_dx(4) == 0 && window_dy(4) == 0);
                assert(window_count(img, w, h, x, y, 5) == window_count(img, w, h, x, y, 4) + 1);
                lemma_window_count_grows(img, w, h, x, y, 0, 4);
                lemma_window_count_grows(img, w, h, x, y, 5, 9);
                let v = colour_channel(r, g, b, c);
                let n = window_count(img, w, h, x, y, 9);
                assert(n > 0);
                assert((v * n) / n == v) by (nonlinear_arith)
                    requires
                        n > 0,
                ;
            }
        }
    }
    assert(blurred_image(img, w, h) =~= img);
}

} // verus!
