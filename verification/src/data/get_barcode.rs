use vstd::prelude::*;
use vstd::arithmetic::power2::pow2;
use vstd::arithmetic::div_mod::{lemma_fundamental_div_mod_converse_div, lemma_fundamental_div_mod_converse_mod};
use crate::data::data_entry::{DataValue, DataValueView, DeviceId, DeviceIdView, DeviceTime, DeviceTimeView, TimelineEntry, TimelineEntryView};
use crate::data::image_processing_algorithm::{blurred_image, selective_blur};

verus! {

/// The colour class a bar of the barcode can have.
#[derive(Debug, Clone, Copy, PartialEq, Eq, Structural)]
pub enum BarColor {
    Black,
    Red,
    Green,
    White,
}

/// Pure black, pure red and pure green are recognised; everything else counts as white.
pub open spec fn spec_closest_color(r: u8, g: u8, b: u8) -> BarColor {
    if r == 0 && g == 0 && b == 0 {
        BarColor::Black
    } else if r == 255 && g == 0 && b == 0 {
        BarColor::Red
    } else if r == 0 && g == 255 && b == 0 {
        BarColor::Green
    } else {
        BarColor::White
    }
}

/// Classifies one pixel.
fn closest_color(r: u8, g: u8, b: u8) -> (c: BarColor)
    ensures
        c == spec_closest_color(r, g, b),
{
    if r == 0 && g == 0 && b == 0 {
        return BarColor::Black;
    }
    if r == 255 && g == 0 && b == 0 {
        return BarColor::Red;
    }
    if r == 0 && g == 255 && b == 0 {
        return BarColor::Green;
    }
    BarColor::White
}

/// The colour classes of a row of pixels.
pub open spec fn colors_of(lst: Seq<(u8, u8, u8)>) -> Seq<BarColor> {
    Seq::new(lst.len(), |i: int| spec_closest_color(lst[i].0, lst[i].1, lst[i].2))
}

/// Start index and length of the last run of red among the first `n` colours; `(0, 0)` when
/// there is no red.
pub open spec fn last_red_run(c: Seq<BarColor>, n: int) -> (int, int)
    decreases n,
{
    if n <= 0 {
        (0, 0)
    } else {
        let prev = last_red_run(c, n - 1);
        if c[n - 1] == BarColor::Red {
            if n >= 2 && c[n - 2] == BarColor::Red {
                (prev.0, prev.1 + 1)
            } else {
                (n - 1, 1)
            }
        } else {
            prev
        }
    }
}

/// Number of bars of a barcode: 4 start bars, 64 time bits, 16 device id bits and 4 end bars.
pub open spec fn bar_count() -> int {
    88
}

/// How far the span from the start of the red run to the end of the row is from holding 88 bars
/// whose width is a quarter of the red run; 1000 when there is no red run.
pub open spec fn match_score(start: int, end: int, run: int) -> int {
    if run == 0 {
        1000
    } else {
        let q = (end - start) / if run / 4 >= 1 {
            run / 4
        } else {
            1
        };
        if q >= 88 {
            q - 88
        } else {
            88 - q
        }
    }
}

/// Whether bar `j` of a barcode starting at `start` with bars `cs` pixels wide reads as white,
/// judged by the pixel in the middle of the bar.
pub open spec fn bar_is_white(c: Seq<BarColor>, start: int, cs: int, j: int) -> bool {
    c[start + j * cs + cs / 2] == BarColor::White
}

/// The number whose bit `i` (for `i < n`) is set exactly when bar `first + i` is white.
pub open spec fn bits_value(c: Seq<BarColor>, start: int, cs: int, first: int, n: nat) -> nat
    decreases n,
{
    if n == 0 {
        0
    } else {
        bits_value(c, start, cs, first, (n - 1) as nat) + if bar_is_white(
            c,
            start,
            cs,
            first + n - 1,
        ) {
            pow2((n - 1) as nat)
        } else {
            0
        }
    }
}

/// What a row of pixels decodes to: the barcode is taken to start at the last red run and to end
/// at the end of the row; it is accepted when its width matches 88 bars of a quarter of the red
/// run's width closely enough (within a tenth of the red run), and then yields the 64-bit time
/// read from bars 4 to 67 and the 16-bit device id read from bars 68 to 83.
pub open spec fn spec_detect_barcode_1d(lst: Seq<(u8, u8, u8)>) -> Option<(u64, u16)> {
    let c = colors_of(lst);
    let run = last_red_run(c, c.len() as int);
    let start = run.0;
    let end = c.len() - 1;
    if match_score(start, end, run.1) <= run.1 / 10 {
        let cs = (end - start) / bar_count();
        Some((bits_value(c, start, cs, 4, 64) as u64, bits_value(c, start, cs, 68, 16) as u16))
    } else {
        None
    }
}

/// Only exact black, red and green are told apart, every other colour reads as white: two rows
/// of the same length whose pixels fall in the same colour classes read the same.
pub proof fn law_only_colour_classes_matter(lst: Seq<(u8, u8, u8)>, lst2: Seq<(u8, u8, u8)>)
    requires
        lst.len() == lst2.len(),
        forall|i: int|
            0 <= i < lst.len() ==> spec_closest_color(lst[i].0, lst[i].1, lst[i].2) == #[trigger] spec_closest_color(
                lst2[i].0,
                lst2[i].1,
                lst2[i].2,
            ),
    ensures
        spec_detect_barcode_1d(lst) == spec_detect_barcode_1d(lst2),
{
    assert(colors_of(lst) =~= colors_of(lst2));
}

/// The colour of pixel `i` of a row holding a barcode whose bars are `w` pixels wide and whose
/// red start block came out `e` pixels wider: four red bars (and the `e` extra pixels), one
/// bar per data bit (white for a set bit, black otherwise; 64 time bits, then 16 device id
/// bits), four green bars, and one black pixel after them.
pub open spec fn barcode_pixel(bits: Seq<bool>, w: int, e: int, i: int) -> BarColor {
    if i < 4 * w + e {
        BarColor::Red
    } else if i < e + 84 * w {
        if bits[(i - e) / w - 4] {
            BarColor::White
        } else {
            BarColor::Black
        }
    } else if i < e + 88 * w {
        BarColor::Green
    } else {
        BarColor::Black
    }
}

/// The number whose bit `i` is set exactly when `bits[i]` holds.
pub open spec fn binary_value(bits: Seq<bool>) -> nat
    decreases bits.len(),
{
    if bits.len() == 0 {
        0
    } else {
        binary_value(bits.drop_last()) + if bits.last() {
            pow2((bits.len() - 1) as nat)
        } else {
            0
        }
    }
}

proof fn lemma_red_block(c: Seq<BarColor>, r: int, n: int)
    requires
        1 <= n <= r <= c.len(),
        forall|i: int| 0 <= i < r ==> #[trigger] c[i] == BarColor::Red,
    ensures
        last_red_run(c, n) == (0int, n),
    decreases n,
{
    if n > 1 {
        lemma_red_block(c, r, n - 1);
    }
}

proof fn lemma_after_red_block(c: Seq<BarColor>, r: int, n: int)
    requires
        1 <= r <= n <= c.len(),
        forall|i: int| 0 <= i < r ==> #[trigger] c[i] == BarColor::Red,
        forall|i: int| r <= i < c.len() ==> #[trigger] c[i] != BarColor::Red,
    ensures
        last_red_run(c, n) == (0int, r),
    decreases n,
{
    if n > r {
        lemma_after_red_block(c, r, n - 1);
    } else {
        lemma_red_block(c, r, n);
    }
}

/// The middle pixel of data bar `4 + j` lies inside that bar.
proof fn lemma_bar_middle(bits: Seq<bool>, w: int, e: int, j: int)
    requires
        w >= 1,
        0 <= e,
        2 * e <= w,
        0 <= j < 80,
    ensures
        ({
            let i = (4 + j) * w + w / 2;
            &&& 4 * w + e <= i < e + 84 * w
            &&& (i - e) / w - 4 == j
        }),
{
    let i = (4 + j) * w + w / 2;
    assert(0 <= w / 2 - e < w);
    assert(i - e == (4 + j) * w + (w / 2 - e));
    assert(((4 + j) * w + (w / 2 - e)) / w == 4 + j) by (nonlinear_arith)
        requires
            w >= 1,
            0 <= w / 2 - e < w,
            j >= 0,
    ;
    assert(4 * w <= (4 + j) * w && (4 + j) * w + w <= 84 * w) by (nonlinear_arith)
        requires
            w >= 1,
            0 <= j < 80,
    ;
}

proof fn lemma_bits_read(c: Seq<BarColor>, bits: Seq<bool>, w: int, e: int, first: int, n: nat)
    requires
        bits.len() == 80,
        w >= 1,
        0 <= e,
        2 * e <= w,
        4 <= first,
        first + n <= 84,
        c.len() == e + 88 * w + 1,
        forall|i: int| 0 <= i < c.len() ==> #[trigger] c[i] == barcode_pixel(bits, w, e, i),
    ensures
        bits_value(c, 0, w, first, n) == binary_value(bits.subrange(first - 4, first - 4 + n)),
    decreases n,
{
    if n > 0 {
        lemma_bits_read(c, bits, w, e, first, (n - 1) as nat);
        let j = first - 4 + n - 1;
        lemma_bar_middle(bits, w, e, j);
        let i = (4 + j) * w + w / 2;
        assert(0 + (first + n - 1) * w + w / 2 == i);
        assert(c[i] == barcode_pixel(bits, w, e, i));
        let b = bits.subrange(first - 4, first - 4 + n);
        assert(b.drop_last() =~= bits.subrange(first - 4, first - 4 + n - 1));
        assert(b.last() == bits[j]);
    }
}

/// Each bar is read at its middle pixel, so a barcode is read right even when the edges of its
/// bars are shifted by less than half a bar: a row whose bars are `w` pixels wide and whose red
/// start block came out up to three pixels (and at most half a bar) wider reads as the time
/// whose bits are the first 64 data bars and the device id whose bits are the next 16.
pub proof fn law_barcode_read_at_bar_middles(lst: Seq<(u8, u8, u8)>, bits: Seq<bool>, w: int, e: int)
    requires
        bits.len() == 80,
        w >= 1,
        0 <= e <= 3,
        2 * e <= w,
        lst.len() == e + 88 * w + 1,
        forall|i: int| 0 <= i < lst.len() ==> #[trigger] colors_of(lst)[i] == barcode_pixel(bits, w, e, i),
    ensures
        spec_detect_barcode_1d(lst) == Some(
            (binary_value(bits.subrange(0, 64)) as u64, binary_value(bits.subrange(64, 80)) as u16),
        ),
{
    let c = colors_of(lst);
    let r = 4 * w + e;
    assert forall|i: int| 0 <= i < r implies #[trigger] c[i] == BarColor::Red by {
        assert(c[i] == barcode_pixel(bits, w, e, i));
    }
    assert forall|i: int| r <= i < c.len() implies #[trigger] c[i] != BarColor::Red by {
        assert(c[i] == barcode_pixel(bits, w, e, i));
    }
    lemma_after_red_block(c, r, c.len() as int);
    let end = c.len() - 1;
    assert(end == e + 88 * w);
    assert(r / 4 == w);
    assert((e + 88 * w) / w == 88) by (nonlinear_arith)
        requires
            w >= 1,
            0 <= e < w,
    ;
    assert(match_score(0, end, r) == 0);
    assert((e + 88 * w) / 88 == w) by (nonlinear_arith)
        requires
            0 <= e < 88,
    ;
    lemma_bits_read(c, bits, w, e, 4, 64);
    lemma_bits_read(c, bits, w, e, 68, 16);
}

proof fn lemma_last_red_run_bounds(c: Seq<BarColor>, n: int)
    requires
        0 <= n <= c.len(),
    ensures
        0 <= last_red_run(c, n).1,
        last_red_run(c, n).0 + last_red_run(c, n).1 <= n,
        0 <= last_red_run(c, n).0,
        n >= 1 ==> last_red_run(c, n).0 <= n - 1,
        n >= 1 && c[n - 1] == BarColor::Red ==> last_red_run(c, n).0 + last_red_run(c, n).1 == n,
    decreases n,
{
    if n > 0 {
        lemma_last_red_run_bounds(c, n - 1);
    }
}

proof fn lemma_bits_value_bound(c: Seq<BarColor>, start: int, cs: int, first: int, n: nat)
    ensures
        bits_value(c, start, cs, first, n) < pow2(n),
    decreases n,
{
    if n > 0 {
        lemma_bits_value_bound(c, start, cs, first, (n - 1) as nat);
        vstd::arithmetic::power2::lemma_pow2_unfold(n);
    } else {
        vstd::arithmetic::power2::lemma_pow2_pos(0);
        reveal(pow2);
    }
}

/// A barcode that passes the width check is at least one pixel per bar wide.
proof fn lemma_accepted_span(d: int, run: int)
    requires
        0 <= d,
        0 <= run <= d + 1,
        match_score(0, d, run) <= run / 10,
    ensures
        d >= 88,
{
    if d < 88 {
        if run < 10 {
            assert(run / 10 == 0);
            if run >= 1 {
                assert(d / (if run / 4 >= 1 { run / 4 } else { 1 }) <= d) by (nonlinear_arith)
                    requires d >= 0;
            }
        } else {
            let dv = run / 4;
            assert(dv >= 2);
            assert(d / dv <= 43) by (nonlinear_arith)
                requires dv >= 2, 0 <= d < 88;
            assert(run / 10 <= 8);
        }
    }
}

/// Reads a 1-dimensional barcode from a row of pixels (see [`spec_detect_barcode_1d`]).
pub fn detect_barcode_1d(lst: &[(u8, u8, u8)]) -> (res: Option<(u64, u16)>)
    requires
        1 <= lst@.len() <= i32::MAX,
    ensures
        res == spec_detect_barcode_1d(lst@),
{
    let n = lst.len();
    let mut colors: Vec<BarColor> = Vec::new();
    let mut i: usize = 0;
    while i < n
        invariant
            n == lst@.len(),
            i <= n,
            colors@ == colors_of(lst@).take(i as int),
        decreases n - i,
    {
        let p = lst[i];
        colors.push(closest_color(p.0, p.1, p.2));
        i += 1;
        assert(colors@ =~= colors_of(lst@).take(i as int));
    }
    assert(colors@ =~= colors_of(lst@));
    let ghost c = colors@;

    let mut red: i32 = 0;
    let mut red_start: usize = 0;
    let mut last_red = false;
    let mut i: usize = 0;
    while i < n
        invariant
            n == lst@.len(),
            n <= i32::MAX,
            c == colors@,
            c.len() == n,
            i <= n,
            (red_start as int, red as int) == last_red_run(c, i as int),
            last_red == (i >= 1 && c[i - 1] == BarColor::Red),
        decreases n - i,
    {
        proof {
            lemma_last_red_run_bounds(c, i as int);
        }
        if colors[i] == BarColor::Red {
            if last_red {
                red += 1;
            } else {
                red = 1;
                red_start = i;
            }
            last_red = true;
        } else {
            last_red = false;
        }
        i += 1;
    }
    proof {
        lemma_last_red_run_bounds(c, n as int);
    }
    let end = n - 1;
    let span = (end - red_start) as i32;
    let score: i32 = if red == 0 {
        1000
    } else {
        let q = span / if red / 4 >= 1 {
            red / 4
        } else {
            1
        };
        if q >= 88 {
            q - 88
        } else {
            88 - q
        }
    };
    assert(score == match_score(red_start as int, end as int, red as int));
    if score <= red / 10 {
        proof {
            assert(match_score(0, end - red_start, red as int) == match_score(
                red_start as int,
                end as int,
                red as int,
            ));
            lemma_accepted_span(end - red_start, red as int);
        }
        let chunk_size = (end - red_start) / 88;
        let mut timecode: u64 = 0;
        let mut j: usize = 0;
        while j < 64
            invariant
                c == colors@,
                c.len() == n,
                red_start + 88 * chunk_size <= end,
                end < n,
                chunk_size >= 1,
                j <= 64,
                timecode as nat == bits_value(c, red_start as int, chunk_size as int, 4, j as nat),
            decreases 64 - j,
        {
            proof {
                assert(red_start + (4 + j) * chunk_size + chunk_size / 2 < red_start + 88
                    * chunk_size) by (nonlinear_arith)
                    requires j < 64, chunk_size >= 1;
            }
            let idx = red_start + (4 + j) * chunk_size + chunk_size / 2;
            let bit = colors[idx] == BarColor::White;
            proof {
                lemma_bits_value_bound(c, red_start as int, chunk_size as int, 4, j as nat);
                vstd::bits::lemma_u64_pow2_no_overflow(j as nat);
                vstd::bits::lemma_u64_shl_is_mul(1, j as u64);
                let jj = j as u64;
                let t = timecode;
                assert(t < (1u64 << jj) ==> (t | (1u64 << jj)) == t + (1u64 << jj)) by (bit_vector)
                    requires jj < 64;
                assert(t | (0u64 << jj) == t) by (bit_vector);
                assert(t | (1u64 << jj) == t + (1u64 << jj));
            }
            timecode = timecode | ((if bit { 1u64 } else { 0u64 }) << j as u64);
            j += 1;
        }
        let mut id: u16 = 0;
        let mut j: usize = 0;
        while j < 16
            invariant
                c == colors@,
                c.len() == n,
                red_start + 88 * chunk_size <= end,
                end < n,
                chunk_size >= 1,
                j <= 16,
                id as nat == bits_value(c, red_start as int, chunk_size as int, 68, j as nat),
            decreases 16 - j,
        {
            proof {
                assert(red_start + (68 + j) * chunk_size + chunk_size / 2 < red_start + 88
                    * chunk_size) by (nonlinear_arith)
                    requires j < 16, chunk_size >= 1;
            }
            let idx = red_start + (68 + j) * chunk_size + chunk_size / 2;
            let bit = colors[idx] == BarColor::White;
            proof {
                lemma_bits_value_bound(c, red_start as int, chunk_size as int, 68, j as nat);
                vstd::bits::lemma_u16_pow2_no_overflow(j as nat);
                vstd::bits::lemma_u16_shl_is_mul(1, j as u16);
                let jj = j as u16;
                let t = id;
                assert(t < (1u16 << jj) ==> (t | (1u16 << jj)) == t + (1u16 << jj)) by (bit_vector)
                    requires jj < 16;
                assert(t | (0u16 << jj) == t) by (bit_vector);
                assert(t | (1u16 << jj) == t + (1u16 << jj));
            }
            id = id | ((if bit { 1u16 } else { 0u16 }) << j as u16);
            j += 1;
        }
        Some((timecode, id))
    } else {
        None
    }
}


/// Row `row` of a `width` pixels wide RGB image, as pixels.
pub open spec fn spec_h_row(data: Seq<u8>, row: int, width: int) -> Seq<(u8, u8, u8)> {
    Seq::new(
        width as nat,
        |i: int|
            (
                data[(row * width + i) * 3],
                data[(row * width + i) * 3 + 1],
                data[(row * width + i) * 3 + 2],
            ),
    )
}

/// Column `col` of a `width` pixels wide, `height` pixels high RGB image, as pixels.
pub open spec fn spec_v_col(data: Seq<u8>, col: int, height: int, width: int) -> Seq<(u8, u8, u8)> {
    Seq::new(
        height as nat,
        |r: int|
            (
                data[(r * width + col) * 3],
                data[(r * width + col) * 3 + 1],
                data[(r * width + col) * 3 + 2],
            ),
    )
}

/// Copies row `row_to_get` of a `width` pixels wide RGB image out as a list of pixels.
pub fn get_h_row(row_to_get: u32, width: u32, data: &[u8]) -> (res: Vec<(u8, u8, u8)>)
    requires
        (row_to_get + 1) * width * 3 <= data@.len(),
    ensures
        res@ == spec_h_row(data@, row_to_get as int, width as int),
{
    let total = data.len();
    let row = row_to_get as usize;
    let width = width as usize;
    proof {
        assert(row * width * 3 + width * 3 <= total) by (nonlinear_arith)
            requires (row + 1) * width * 3 <= total;
    }
    let start = row * width * 3;
    let mut res: Vec<(u8, u8, u8)> = Vec::new();
    let mut i: usize = 0;
    while i < width
        invariant
            total == data@.len(),
            start == row * width * 3,
            start + width * 3 <= total,
            i <= width,
            res@ == spec_h_row(data@, row as int, width as int).take(i as int),
        decreases width - i,
    {
        let k = start + i * 3;
        assert(k == (row * width + i) * 3) by (nonlinear_arith)
            requires k == start + i * 3, start == row * width * 3;
        res.push((data[k], data[k + 1], data[k + 2]));
        i += 1;
        assert(res@ =~= spec_h_row(data@, row as int, width as int).take(i as int));
    }
    assert(res@ =~= spec_h_row(data@, row as int, width as int));
    res
}

/// Copies column `col_to_get` of a `width` by `height` RGB image out as a list of pixels.
pub fn get_v_col(col_to_get: u32, height: u32, width: u32, data: &[u8]) -> (res: Vec<(u8, u8, u8)>)
    requires
        height == 0 || ((height - 1) * width + col_to_get) * 3 + 3 <= data@.len(),
    ensures
        res@ == spec_v_col(data@, col_to_get as int, height as int, width as int),
{
    let total = data.len();
    let col = col_to_get as usize;
    let height = height as usize;
    let width = width as usize;
    let mut res: Vec<(u8, u8, u8)> = Vec::new();
    let mut r: usize = 0;
    while r < height
        invariant
            total == data@.len(),
            height == 0 || ((height - 1) * width + col) * 3 + 3 <= total,
            r <= height,
            res@ == spec_v_col(data@, col as int, height as int, width as int).take(r as int),
        decreases height - r,
    {
        proof {
            assert((r * width + col) * 3 + 3 <= total) by (nonlinear_arith)
                requires
                    r < height,
                    ((height - 1) * width + col) * 3 + 3 <= total,
            ;
        }
        let start = (r * width) * 3 + col * 3;
        res.push((data[start], data[start + 1], data[start + 2]));
        r += 1;
        assert(res@ =~= spec_v_col(data@, col as int, height as int, width as int).take(r as int));
    }
    assert(res@ =~= spec_v_col(data@, col as int, height as int, width as int));
    res
}

/// Smallest of `a + b` and 255 (`u8::saturating_add`).
pub open spec fn saturating_add_u8(a: u8, b: u8) -> int {
    if a + b > 255 {
        255
    } else {
        a + b
    }
}

/// Reduces a pixel to one of black, red, green or white when its class is clear from its
/// weighted brightness and channel balance; ambiguous pixels keep their colour.
pub open spec fn threshold_pixel(r: u8, g: u8, b: u8) -> (u8, u8, u8) {
    let lm = (150 * r + 100 * g + 5 * b) / 256;
    if lm < 30 {
        (0, 0, 0)
    } else if r > saturating_add_u8(g, b) {
        (255, 0, 0)
    } else if g / 3 > b / 2 {
        (0, 255, 0)
    } else if lm > 50 {
        (255, 255, 255)
    } else {
        (r, g, b)
    }
}

/// The image with [`threshold_pixel`] applied to every complete 3-byte pixel.
pub open spec fn thresholded(img: Seq<u8>) -> Seq<u8> {
    Seq::new(
        img.len(),
        |i: int|
            if i < (img.len() / 3) * 3 {
                let p = threshold_pixel(img[(i / 3) * 3], img[(i / 3) * 3 + 1], img[(i / 3) * 3 + 2]);
                if i % 3 == 0 {
                    p.0
                } else if i % 3 == 1 {
                    p.1
                } else {
                    p.2
                }
            } else {
                img[i]
            },
    )
}

/// Three blur passes, the colour threshold, and one more blur pass.
pub open spec fn spec_pre_process(img: Seq<u8>, height: int, width: int) -> Seq<u8> {
    blurred_image(
        thresholded(blurred_image(blurred_image(blurred_image(img, width, height), width, height), width, height)),
        width,
        height,
    )
}

/// Cleans up an RGB image before barcode reading (see [`spec_pre_process`]).
fn pre_process(data: &mut [u8], height: u32, width: u32)
    requires
        width * height * 3 <= old(data)@.len(),
    ensures
        final(data)@ == spec_pre_process(old(data)@, height as int, width as int),
{
    selective_blur(data, width as usize, height as usize);
    selective_blur(data, width as usize, height as usize);
    selective_blur(data, width as usize, height as usize);
    let ghost before = data@;
    let total = data.len();
    let pixels = total / 3;
    let mut p: usize = 0;
    while p < pixels
        invariant
            total == data@.len(),
            before.len() == total,
            pixels == total / 3,
            p <= pixels,
            forall|i: int|
                0 <= i < total ==> #[trigger] data@[i] == if i < p * 3 {
                    thresholded(before)[i]
                } else {
                    before[i]
                },
        decreases pixels - p,
    {
        let k = p * 3;
        let x0 = data[k];
        let x1 = data[k + 1];
        let x2 = data[k + 2];
        let v: u16 = (150 * x0 as u16) + (100 * x1 as u16) + (5 * x2 as u16);
        assert(v >> 8 == v / 256) by (bit_vector);
        let lm = (v >> 8) as u8;
        let sat = if x1 as u16 + x2 as u16 > 255 { 255u8 } else { x1 + x2 };
        let out: (u8, u8, u8) = if lm < 30 {
            (0, 0, 0)
        } else if x0 > sat {
            (255, 0, 0)
        } else if x1 / 3 > x2 / 2 {
            (0, 255, 0)
        } else if lm > 50 {
            (255, 255, 255)
        } else {
            (x0, x1, x2)
        };
        assert(out == threshold_pixel(x0, x1, x2));
        data[k] = out.0;
        data[k + 1] = out.1;
        data[k + 2] = out.2;
        proof {
            assert forall|i: int| 0 <= i < total implies #[trigger] data@[i] == if i < (p + 1) * 3 {
                thresholded(before)[i]
            } else {
                before[i]
            } by {
                if k <= i < k + 3 {
                    assert(i / 3 == p);
                }
            }
        }
        p += 1;
    }
    assert(data@ =~= thresholded(before));
    selective_blur(data, width as usize, height as usize);
}

/// The ten rows of pixels starting at the middle row of the image, as bytes.
pub open spec fn spec_center_strip(data: Seq<u8>, width: int, height: int) -> Seq<u8> {
    data.subrange((height / 2) * width * 3, (height / 2 + 10) * width * 3)
}

/// The ten columns of pixels starting at the middle column of the image, each read top to
/// bottom and laid one after the other, as bytes.
pub open spec fn spec_vertical_strip(data: Seq<u8>, width: int, height: int) -> Seq<u8> {
    Seq::new(
        (10 * height * 3) as nat,
        |i: int| data[(((i / 3) % height) * width + (width / 2 + (i / 3) / height)) * 3 + i % 3],
    )
}

/// The clock-offset entries a decoded barcode gives: the barcode's time and device id, paired
/// with the clock reading of the device that filmed it.
pub open spec fn barcode_entries(code: Option<(u64, u16)>, device_time: DeviceTimeView) -> Seq<TimelineEntryView> {
    match code {
        Some((timecode, id)) => seq![
            TimelineEntryView {
                time: DeviceTimeView { internal_clock: timecode, device_id: DeviceIdView::ClientId(id) },
                val: DataValueView::ClockOffset(device_time),
            },
        ],
        None => seq![],
    }
}

/// What [`detect_barcodes`] finds: a barcode read along the middle row of the cleaned-up
/// horizontal strip, then one read along the middle of the cleaned-up vertical strip.
pub open spec fn spec_detect_barcodes(data: Seq<u8>, width: int, height: int, device_time: DeviceTimeView) -> Seq<TimelineEntryView> {
    let row_strip = spec_pre_process(spec_center_strip(data, width, height), 10, width);
    let col_strip = spec_pre_process(spec_vertical_strip(data, width, height), 10, height);
    barcode_entries(spec_detect_barcode_1d(spec_h_row(row_strip, 5, width)), device_time)
        + barcode_entries(spec_detect_barcode_1d(spec_h_row(col_strip, 5, height)), device_time)
}

fn push_barcode_entry(entries: &mut Vec<TimelineEntry>, code: Option<(u64, u16)>, device_time: &DeviceTime)
    ensures
        final(entries)@.map_values(|e: TimelineEntry| e@) == old(entries)@.map_values(|e: TimelineEntry| e@)
            + barcode_entries(code, device_time@),
{
    let ghost before = entries@.map_values(|e: TimelineEntry| e@);
    if let Some((timecode, id)) = code {
        entries.push(
            TimelineEntry {
                time: DeviceTime { internal_clock: timecode, device_id: DeviceId::ClientId(id) },
                val: DataValue::ClockOffset(device_time.clone()),
            },
        );
    }
    assert(entries@.map_values(|e: TimelineEntry| e@) =~= before + barcode_entries(code, device_time@));
}

/// Looks for barcodes across the middle of an RGB image, along a horizontal and a vertical strip
/// ten pixels wide, and returns one clock-offset entry for each barcode read
/// (see [`spec_detect_barcodes`]).
pub fn detect_barcodes(data: &mut [u8], width: u32, height: u32, device_time: &DeviceTime) -> (res: Vec<TimelineEntry>)
    requires
        1 <= width <= i32::MAX,
        1 <= height <= i32::MAX,
        (height / 2 + 10) * width * 3 <= old(data)@.len(),
        ((height - 1) * width + width / 2 + 9) * 3 + 3 <= old(data)@.len(),
    ensures
        final(data)@ == old(data)@,
        res@.map_values(|e: TimelineEntry| e@) == spec_detect_barcodes(old(data)@, width as int, height as int, device_time@),
{
    let total = data.len();
    let w = width as usize;
    let h = height as usize;
    proof {
        assert((h / 2) * w * 3 <= (h / 2 + 10) * w * 3) by (nonlinear_arith)
            requires w >= 1;
    }
    let start = (h / 2) * w * 3;
    let end = (h / 2 + 10) * w * 3;
    let mut center_strip: Vec<u8> = Vec::new();
    let mut i = start;
    while i < end
        invariant
            total == data@.len(),
            start <= i <= end <= total,
            center_strip@ == data@.subrange(start as int, i as int),
        decreases end - i,
    {
        center_strip.push(data[i]);
        i += 1;
        assert(center_strip@ =~= data@.subrange(start as int, i as int));
    }
    assert(center_strip@ == spec_center_strip(data@, w as int, h as int));

    let ghost vstrip = spec_vertical_strip(data@, w as int, h as int);
    let mut vertical_strip: Vec<u8> = Vec::new();
    let mut x: u32 = 0;
    while x < 10
        invariant
            total == data@.len(),
            w == width,
            h == height,
            1 <= w,
            1 <= h,
            ((h - 1) * w + w / 2 + 9) * 3 + 3 <= total,
            vstrip == spec_vertical_strip(data@, w as int, h as int),
            x <= 10,
            vertical_strip@ == vstrip.take(x * h * 3),
        decreases 10 - x,
    {
        let col = get_v_col(width / 2 + x, height, width, data);
        let mut r: usize = 0;
        while r < h
            invariant
                w == width,
                h == height,
                1 <= w,
                1 <= h,
                x < 10,
                r <= h,
                col@ == spec_v_col(data@, (width / 2 + x) as int, h as int, w as int),
                vstrip == spec_vertical_strip(data@, w as int, h as int),
                vertical_strip@ == vstrip.take((x * h + r) * 3),
            decreases h - r,
        {
            let p = col[r];
            let ghost base = (x * h + r) * 3;
            proof {
                assert(base + 3 <= 10 * h * 3) by (nonlinear_arith)
                    requires base == (x * h + r) * 3, x < 10, r < h;
                assert forall|c: int| 0 <= c < 3 implies #[trigger] vstrip[base + c] == if c == 0 {
                    p.0
                } else if c == 1 {
                    p.1
                } else {
                    p.2
                } by {
                    let i = base + c;
                    lemma_fundamental_div_mod_converse_div(i, 3, x * h + r, c);
                    lemma_fundamental_div_mod_converse_mod(i, 3, x * h + r, c);
                    lemma_fundamental_div_mod_converse_div(x * h + r, h as int, x as int, r as int);
                    lemma_fundamental_div_mod_converse_mod(x * h + r, h as int, x as int, r as int);
                }
            }
            assert(vstrip[base + 0] == p.0);
            assert(vstrip[base + 1] == p.1);
            assert(vstrip[base + 2] == p.2);
            vertical_strip.push(p.0);
            vertical_strip.push(p.1);
            vertical_strip.push(p.2);
            r += 1;
            assert((x * h + r) * 3 == base + 3) by (nonlinear_arith)
                requires base == (x * h + (r - 1)) * 3;
            assert(vertical_strip@ =~= vstrip.take(base + 3));
        }
        x += 1;
        assert((x - 1) * h + h == x * h) by (nonlinear_arith);
    }
    assert(vertical_strip@ =~= vstrip);

    let ghost row_strip0 = center_strip@;
    let ghost col_strip0 = vertical_strip@;
    proof {
        assert(w * 10 * 3 <= center_strip@.len()) by (nonlinear_arith)
            requires center_strip@.len() == (h / 2 + 10) * w * 3 - (h / 2) * w * 3;
        assert(h * 10 * 3 <= vertical_strip@.len()) by (nonlinear_arith)
            requires vertical_strip@.len() == 10 * h * 3;
    }
    pre_process(center_strip.as_mut_slice(), 10, width);
    pre_process(vertical_strip.as_mut_slice(), 10, height);
    proof {
        assert((5 + 1) * w * 3 <= center_strip@.len()) by (nonlinear_arith)
            requires w * 10 * 3 <= center_strip@.len();
        assert((5 + 1) * h * 3 <= vertical_strip@.len()) by (nonlinear_arith)
            requires h * 10 * 3 <= vertical_strip@.len();
    }
    let row_pixels = get_h_row(5, width, center_strip.as_slice());
    let col_pixels = get_h_row(5, height, vertical_strip.as_slice());
    let barcode_row = detect_barcode_1d(row_pixels.as_slice());
    let barcode_col = detect_barcode_1d(col_pixels.as_slice());

    let mut potential_readings: Vec<TimelineEntry> = Vec::new();
    assert(potential_readings@.map_values(|e: TimelineEntry| e@) =~= Seq::<TimelineEntryView>::empty());
    push_barcode_entry(&mut potential_readings, barcode_row, device_time);
    push_barcode_entry(&mut potential_readings, barcode_col, device_time);
    assert(barcode_entries(barcode_row, device_time@) =~= Seq::<TimelineEntryView>::empty()
        + barcode_entries(barcode_row, device_time@));
    potential_readings
}

} // verus!
