//! Grey-level conversion, sharpening, resampling and the ASCII frame.
use vstd::prelude::*;

verus! {

/// Integer luma of an RGB pixel: (77 r + 150 g + 29 b) / 256.
pub open spec fn luma_spec(r: u8, g: u8, b: u8) -> u8 {
    ((77 * r + 150 * g + 29 * b) / 256) as u8
}

/// Integer luma of an RGB pixel (weights 77, 150, 29 out of 256).
pub fn luma(r: u8, g: u8, b: u8) -> (v: u8)
    ensures
        v == luma_spec(r, g, b),
{
    let s: u32 = r as u32 * 77 + g as u32 * 150 + b as u32 * 29;
    assert(s >> 8 == s / 256) by (bit_vector);
    (s >> 8) as u8
}


// ---------------------------------------------------------------------------
// Sharpening
// ---------------------------------------------------------------------------

pub open spec fn clamp_byte(v: int) -> u8 {
    if v < 0 {
        0
    } else if v > 255 {
        255
    } else {
        v as u8
    }
}

/// Pixel `i` is strictly inside a `w` x `h` image (at least 3 x 3).
pub open spec fn interior(w: int, h: int, i: int) -> bool {
    &&& w >= 3
    &&& h >= 3
    &&& 1 <= i % w < w - 1
    &&& 1 <= i / w < h - 1
}

/// Pixel `i` after the 3x3 sharpening kernel (centre 5, edge
/// neighbours -1, clamped to 0..255); border pixels are kept.
pub open spec fn sharpened(src: Seq<u8>, w: int, h: int, i: int) -> u8 {
    if interior(w, h, i) {
        clamp_byte(5 * src[i] - src[i - w] - src[i + w] - src[i - 1] - src[i + 1])
    } else {
        src[i]
    }
}

/// Sharpens a `w` x `h` grey image with a 3x3 kernel, leaving the border
/// (and any pixels past `w * h`) as they are.
pub fn sharpen_3x3(src: &[u8], w: usize, h: usize) -> (dst: Vec<u8>)
    requires
        w >= 3 && h >= 3 ==> w * h <= src@.len() + 1,
    ensures
        dst@.len() == src@.len(),
        forall|i: int| 0 <= i < src@.len() ==> #[trigger] dst@[i] == sharpened(src@, w as int, h as int, i),
{
    let n = src.len();
    let mut dst: Vec<u8> = Vec::new();
    if w < 3 || h < 3 {
        let mut i: usize = 0;
        while i < n
            invariant
                n == src@.len(),
                w < 3 || h < 3,
                i <= n,
                dst@.len() == i,
                forall|j: int| 0 <= j < i ==> #[trigger] dst@[j] == sharpened(src@, w as int, h as int, j),
            decreases n - i,
        {
            dst.push(src[i]);
            i = i + 1;
        }
        return dst;
    }
    let mut i: usize = 0;
    let mut x: usize = 0;
    let mut y: usize = 0;
    while i < n
        invariant
            n == src@.len(),
            w >= 3,
            h >= 3,
            w * h <= n + 1,
            i <= n,
            x < w,
            i == y * w + x,
            dst@.len() == i,
            forall|j: int| 0 <= j < i ==> #[trigger] dst@[j] == sharpened(src@, w as int, h as int, j),
        decreases n - i,
    {
        proof {
            crate::components::lemma_next_cell(w as int, i as int, x as int, y as int);
        }
        if x >= 1 && x + 1 < w && y >= 1 && y + 1 < h {
            proof {
                assert(i + w < n) by {
                    assert((y + 2) * w <= h * w) by (nonlinear_arith)
                        requires
                            y + 2 <= h,
                            w >= 1,
                    ;
                    assert((y + 2) * w == y * w + 2 * w) by (nonlinear_arith);
                    assert(h * w == w * h) by (nonlinear_arith);
                }
            }
            let v: i32 = src[i] as i32 * 5 - src[i - w] as i32 - src[i + w] as i32 - src[i - 1] as i32
                - src[i + 1] as i32;
            let c: u8 = if v < 0 {
                0
            } else if v > 255 {
                255
            } else {
                v as u8
            };
            dst.push(c);
        } else {
            dst.push(src[i]);
        }
        i = i + 1;
        x = x + 1;
        if x == w {
            x = 0;
            y = y + 1;
        }
    }
    dst
}

// ---------------------------------------------------------------------------
// Nearest-neighbour resampling
// ---------------------------------------------------------------------------

/// Source pixel read for destination pixel `c` when resampling an
/// `sw` x `sh` image to `dw` x `dh`.
pub open spec fn resize_source(sw: int, sh: int, dw: int, dh: int, c: int) -> int {
    ((c / dw) * sh / dh) * sw + (c % dw) * sw / dw
}

/// The source index is in range for every destination pixel.
pub open spec fn resize_fits(len: int, sw: int, sh: int, dw: int, dh: int) -> bool {
    forall|c: int| 0 <= c < dw * dh ==> 0 <= #[trigger] resize_source(sw, sh, dw, dh, c) < len
}

proof fn lemma_scaled_below(i: int, n: int, s: int, d: int)
    requires
        0 <= i < d,
        n >= 0,
        s >= 0,
        n * d <= s * d,
    ensures
        0 <= i * n / d,
        i * n / d < n || n == 0,
{
    assert(0 <= i * n) by (nonlinear_arith)
        requires
            i >= 0,
            n >= 0,
    ;
    vstd::arithmetic::div_mod::lemma_div_pos_is_pos(i * n, d);
    if n > 0 {
        assert(i * n < d * n) by (nonlinear_arith)
            requires
                i < d,
                n > 0,
        ;
        vstd::arithmetic::div_mod::lemma_div_by_multiple_is_strongly_ordered(i * n, d * n, n, d);
        assert(d * n == n * d) by (nonlinear_arith);
        vstd::arithmetic::div_mod::lemma_div_multiples_vanish(n, d);
    }
}

/// An `sw` x `sh` source stored in at least `sw * sh` cells always fits.
pub proof fn lemma_resize_fits(len: int, sw: int, sh: int, dw: int, dh: int)
    requires
        sw > 0,
        sh > 0,
        dw > 0,
        dh > 0,
        sw * sh <= len,
    ensures
        resize_fits(len, sw, sh, dw, dh),
{
    assert forall|c: int| 0 <= c < dw * dh implies 0 <= #[trigger] resize_source(sw, sh, dw, dh, c) < len by {
        let dy = c / dw;
        let dx = c % dw;
        vstd::arithmetic::div_mod::lemma_fundamental_div_mod(c, dw);
        vstd::arithmetic::div_mod::lemma_mod_pos_bound(c, dw);
        vstd::arithmetic::div_mod::lemma_div_pos_is_pos(c, dw);
        assert(dy < dh) by {
            assert(dw * dh == dh * dw) by (nonlinear_arith);
            vstd::arithmetic::div_mod::lemma_div_by_multiple_is_strongly_ordered(c, dw * dh, dh, dw);
            vstd::arithmetic::div_mod::lemma_div_multiples_vanish(dh, dw);
        }
        let sy = dy * sh / dh;
        let sx = dx * sw / dw;
        assert(0 <= sy < sh) by {
            lemma_scaled_below(dy, sh, sh, dh);
        }
        assert(0 <= sx < sw) by {
            lemma_scaled_below(dx, sw, sw, dw);
        }
        assert(0 <= sy * sw + sx < sw * sh) by (nonlinear_arith)
            requires
                0 <= sy < sh,
                0 <= sx < sw,
        ;
    }
}

/// Nearest-neighbour resampling of an `sw` x `sh` image to `dw` x `dh`;
/// empty when either target dimension is 0.
pub fn resize_nearest(src: &[u8], sw: usize, sh: usize, dw: usize, dh: usize) -> (dst: Vec<u8>)
    requires
        dw > 0 && dh > 0 ==> resize_fits(src@.len() as int, sw as int, sh as int, dw as int, dh as int),
        dw * dh <= usize::MAX,
        dh * sh <= usize::MAX,
        dw * sw <= usize::MAX,
    ensures
        dw == 0 || dh == 0 ==> dst@.len() == 0,
        dw > 0 && dh > 0 ==> dst@.len() == dw * dh,
        forall|c: int|
            0 <= c < dst@.len() ==> #[trigger] dst@[c] == src@[resize_source(
                sw as int,
                sh as int,
                dw as int,
                dh as int,
                c,
            )],
{
    let mut dst: Vec<u8> = Vec::new();
    if dw == 0 || dh == 0 {
        return dst;
    }
    let len = src.len();
    let n = dw * dh;
    let mut c: usize = 0;
    let mut dx: usize = 0;
    let mut dy: usize = 0;
    while c < n
        invariant
            n == dw * dh,
            dw > 0,
            dh > 0,
            dh * sh <= usize::MAX,
            dw * sw <= usize::MAX,
            resize_fits(src@.len() as int, sw as int, sh as int, dw as int, dh as int),
            len == src@.len(),
            c <= n,
            dx < dw,
            c == dy * dw + dx,
            dst@.len() == c,
            forall|j: int|
                0 <= j < c ==> #[trigger] dst@[j] == src@[resize_source(
                    sw as int,
                    sh as int,
                    dw as int,
                    dh as int,
                    j,
                )],
        decreases n - c,
    {
        proof {
            crate::components::lemma_next_cell(dw as int, c as int, dx as int, dy as int);
            assert(dy < dh) by {
                if dy >= dh {
                    assert(dh * dw == dw * dh) by (nonlinear_arith);
                    assert(dy * dw >= dh * dw) by (nonlinear_arith)
                        requires
                            dy >= dh,
                            dw >= 1,
                    ;
                }
            }
            assert(dy * sh <= dh * sh) by (nonlinear_arith)
                requires
                    dy < dh,
            ;
            assert(dx * sw <= dw * sw) by (nonlinear_arith)
                requires
                    dx < dw,
            ;
            assert(0 <= resize_source(sw as int, sh as int, dw as int, dh as int, c as int) < src@.len());
        }
        let sy = dy * sh / dh;
        let sx = dx * sw / dw;
        proof {
            assert(sy * sw + sx == resize_source(sw as int, sh as int, dw as int, dh as int, c as int));
        }
        dst.push(src[sy * sw + sx]);
        c = c + 1;
        dx = dx + 1;
        if dx == dw {
            dx = 0;
            dy = dy + 1;
        }
    }
    dst
}


// ---------------------------------------------------------------------------
// Tone mapping and dithering
// ---------------------------------------------------------------------------

/// Grey level of an RGB pixel after the tone curve `gamma`
/// (a 256-entry table indexed by luma).
pub fn rgb_to_gray(r: u8, g: u8, b: u8, gamma: &[u8]) -> (v: u8)
    requires
        gamma@.len() == 256,
    ensures
        v == gamma@[luma_spec(r, g, b) as int],
{
    gamma[luma(r, g, b) as usize]
}

/// Characters from darkest to brightest.
pub open spec fn ramp() -> Seq<char> {
    " .'`^\",:;Il!i><~+_-?][}{1)(|/tfjrxnuvczXYUJCLQ0OZmwqpdbkhao*#MW&8%B@$"@
}

/// Number of characters in the ramp.
pub const RAMP_LEN: usize = 69;

/// Character `i` of the ramp.
pub fn ramp_char(i: usize) -> (c: char)
    requires
        i < RAMP_LEN,
    ensures
        c == ramp()[i as int],
{
    let s = " .'`^\",:;Il!i><~+_-?][}{1)(|/tfjrxnuvczXYUJCLQ0OZmwqpdbkhao*#MW&8%B@$";
    proof {
        reveal_strlit(" .'`^\",:;Il!i><~+_-?][}{1)(|/tfjrxnuvczXYUJCLQ0OZmwqpdbkhao*#MW&8%B@$");
    }
    s.get_char(i)
}

/// Entry (row `y`, column `x`) of the 4x4 ordered-dither matrix, in
/// sixteenths.
pub open spec fn bayer_spec(y: int, x: int) -> int {
    if y == 0 {
        if x == 0 { 0 } else if x == 1 { 8 } else if x == 2 { 2 } else { 10 }
    } else if y == 1 {
        if x == 0 { 12 } else if x == 1 { 4 } else if x == 2 { 14 } else { 6 }
    } else if y == 2 {
        if x == 0 { 3 } else if x == 1 { 11 } else if x == 2 { 1 } else { 9 }
    } else {
        if x == 0 { 15 } else if x == 1 { 7 } else if x == 2 { 13 } else { 5 }
    }
}

/// Entry (row `y`, column `x`) of the 4x4 ordered-dither matrix, in
/// sixteenths.
pub fn bayer(y: usize, x: usize) -> (k: usize)
    requires
        y < 4,
        x < 4,
    ensures
        k == bayer_spec(y as int, x as int),
{
    if y == 0 {
        if x == 0 { 0 } else if x == 1 { 8 } else if x == 2 { 2 } else { 10 }
    } else if y == 1 {
        if x == 0 { 12 } else if x == 1 { 4 } else if x == 2 { 14 } else { 6 }
    } else if y == 2 {
        if x == 0 { 3 } else if x == 1 { 11 } else if x == 2 { 1 } else { 9 }
    } else {
        if x == 0 { 15 } else if x == 1 { 7 } else if x == 2 { 13 } else { 5 }
    }
}

/// Ramp position of grey level `g` with dither offset `k`/16:
/// floor(g / 255 * 69 + k / 16), capped at the last character.
pub open spec fn ramp_index_spec(g: int, k: int) -> int {
    let v = (g * 69 * 16 + 255 * k) / 4080int;
    if v > 68 {
        68
    } else {
        v
    }
}

/// Ramp position of grey level `g` with dither offset `k`/16.
pub fn ramp_index(g: u8, k: usize) -> (i: usize)
    requires
        k < 16,
    ensures
        i == ramp_index_spec(g as int, k as int),
        i < RAMP_LEN,
{
    let v = (g as usize * 1104 + 255 * k) / 4080;
    if v > 68 {
        68
    } else {
        v
    }
}

// ---------------------------------------------------------------------------
// The ASCII frame
// ---------------------------------------------------------------------------

/// Tone-mapped grey levels of the first `n` RGB pixels.
pub open spec fn gray_pixels(rgb: Seq<u8>, gamma: Seq<u8>, n: int) -> Seq<u8> {
    Seq::new(n as nat, |i: int| gamma[luma_spec(rgb[3 * i], rgb[3 * i + 1], rgb[3 * i + 2]) as int])
}

/// The image after `sharpen_3x3`.
pub open spec fn sharpened_image(src: Seq<u8>, w: int, h: int) -> Seq<u8> {
    Seq::new(src.len(), |i: int| sharpened(src, w, h, i))
}

/// Grey level shown at cell `c` of a `cols` x `rows` frame.
pub open spec fn frame_shade(rgb: Seq<u8>, gamma: Seq<u8>, fw: int, fh: int, cols: int, rows: int, c: int) -> u8 {
    sharpened_image(gray_pixels(rgb, gamma, fw * fh), fw, fh)[resize_source(fw, fh, cols, rows, c)]
}

/// Character shown at column `x`, row `y`.
pub open spec fn frame_char(
    rgb: Seq<u8>,
    gamma: Seq<u8>,
    fw: int,
    fh: int,
    cols: int,
    rows: int,
    x: int,
    y: int,
) -> char {
    ramp()[ramp_index_spec(
        frame_shade(rgb, gamma, fw, fh, cols, rows, y * cols + x) as int,
        bayer_spec(y % 4, x % 4),
    )]
}

/// Colour shown at column `x`, row `y`: the RGB pixel the cell samples.
pub open spec fn frame_color(rgb: Seq<u8>, fw: int, fh: int, cols: int, rows: int, x: int, y: int) -> (
    u8,
    u8,
    u8,
) {
    let s = resize_source(fw, fh, cols, rows, y * cols + x);
    (rgb[3 * s], rgb[3 * s + 1], rgb[3 * s + 2])
}

/// Renders a `frame_w` x `frame_h` RGB frame as `rows` lines of `cols`
/// characters: tone-mapped grey (`gamma`), sharpened, resampled, then
/// mapped to the character ramp with 4x4 ordered dithering. With
/// `use_color`, also returns each cell's sampled RGB colour; otherwise the
/// colour table is empty.
pub fn build_ascii_frame(
    rgb_data: &[u8],
    frame_w: usize,
    frame_h: usize,
    cols: usize,
    rows: usize,
    use_color: bool,
    gamma: &[u8],
) -> (res: (Vec<Vec<char>>, Vec<Vec<(u8, u8, u8)>>))
    requires
        gamma@.len() == 256,
        3 * (frame_w * frame_h) <= rgb_data@.len(),
        cols > 0 && rows > 0 ==> resize_fits(
            (frame_w * frame_h) as int,
            frame_w as int,
            frame_h as int,
            cols as int,
            rows as int,
        ),
        cols * rows <= usize::MAX,
        rows * frame_h <= usize::MAX,
        cols * frame_w <= usize::MAX,
    ensures
        res.0@.len() == rows,
        forall|y: int| 0 <= y < rows ==> (#[trigger] res.0@[y])@.len() == cols,
        forall|y: int, x: int|
            0 <= y < rows && 0 <= x < cols ==> #[trigger] res.0@[y]@[x] == frame_char(
                rgb_data@,
                gamma@,
                frame_w as int,
                frame_h as int,
                cols as int,
                rows as int,
                x,
                y,
            ),
        use_color ==> res.1@.len() == rows,
        !use_color ==> res.1@.len() == 0,
        use_color ==> forall|y: int| 0 <= y < rows ==> (#[trigger] res.1@[y])@.len() == cols,
        use_color ==> forall|y: int, x: int|
            0 <= y < rows && 0 <= x < cols ==> #[trigger] res.1@[y]@[x] == frame_color(
                rgb_data@,
                frame_w as int,
                frame_h as int,
                cols as int,
                rows as int,
                x,
                y,
            ),
        use_color && (forall|i: int| 0 <= i < frame_w * frame_h ==> #[trigger] same_pixel(rgb_data@, i, 0))
            ==> forall|y: int, x: int|
            0 <= y < rows && 0 <= x < cols ==> #[trigger] res.1@[y]@[x] == (
                rgb_data@[0],
                rgb_data@[1],
                rgb_data@[2],
            ),
{
    let total = rgb_data.len();
    let n = frame_w * frame_h;
    let mut gray: Vec<u8> = Vec::new();
    let mut i: usize = 0;
    while i < n
        invariant
            n == frame_w * frame_h,
            3 * n <= rgb_data@.len(),
            total == rgb_data@.len(),
            gamma@.len() == 256,
            i <= n,
            gray@.len() == i,
            forall|j: int| 0 <= j < i ==> gray@[j] == gray_pixels(rgb_data@, gamma@, n as int)[j],
        decreases n - i,
    {
        let j = i * 3;
        gray.push(rgb_to_gray(rgb_data[j], rgb_data[j + 1], rgb_data[j + 2], gamma));
        i = i + 1;
    }
    let ghost g0 = gray_pixels(rgb_data@, gamma@, n as int);
    assert(gray@ =~= g0);
    let sharp = sharpen_3x3(gray.as_slice(), frame_w, frame_h);
    let ghost g1 = sharpened_image(g0, frame_w as int, frame_h as int);
    assert(sharp@ =~= g1);
    let small = resize_nearest(sharp.as_slice(), frame_w, frame_h, cols, rows);
    let mut text: Vec<Vec<char>> = Vec::new();
    let mut fg: Vec<Vec<(u8, u8, u8)>> = Vec::new();
    let mut y: usize = 0;
    while y < rows
        invariant
            y <= rows,
            cols * rows <= usize::MAX,
            cols > 0 ==> small@.len() == cols * rows,
            cols > 0 ==> resize_fits(n as int, frame_w as int, frame_h as int, cols as int, rows as int),
            n == frame_w * frame_h,
            3 * n <= rgb_data@.len(),
            total == rgb_data@.len(),
            rows * frame_h <= usize::MAX,
            cols * frame_w <= usize::MAX,
            sharp@ == g1,
            g1 == sharpened_image(gray_pixels(rgb_data@, gamma@, n as int), frame_w as int, frame_h as int),
            g1.len() == n,
            forall|c: int|
                0 <= c < small@.len() ==> #[trigger] small@[c] == sharp@[resize_source(
                    frame_w as int,
                    frame_h as int,
                    cols as int,
                    rows as int,
                    c,
                )],
            text@.len() == y,
            use_color ==> fg@.len() == y,
            !use_color ==> fg@.len() == 0,
            forall|yy: int| 0 <= yy < y ==> (#[trigger] text@[yy])@.len() == cols,
            forall|yy: int, x: int|
                0 <= yy < y && 0 <= x < cols ==> #[trigger] text@[yy]@[x] == frame_char(
                    rgb_data@,
                    gamma@,
                    frame_w as int,
                    frame_h as int,
                    cols as int,
                    rows as int,
                    x,
                    yy,
                ),
            use_color ==> forall|yy: int| 0 <= yy < y ==> (#[trigger] fg@[yy])@.len() == cols,
            use_color ==> forall|yy: int, x: int|
                0 <= yy < y && 0 <= x < cols ==> #[trigger] fg@[yy]@[x] == frame_color(
                    rgb_data@,
                    frame_w as int,
                    frame_h as int,
                    cols as int,
                    rows as int,
                    x,
                    yy,
                ),
        decreases rows - y,
    {
        let mut row: Vec<char> = Vec::new();
        let mut crow: Vec<(u8, u8, u8)> = Vec::new();
        let mut x: usize = 0;
        proof {
            assert(y * cols + cols <= cols * rows) by (nonlinear_arith)
                requires
                    y < rows,
            ;
        }
        while x < cols
            invariant
                x <= cols,
                y < rows,
                y * cols + cols <= cols * rows,
                cols * rows <= usize::MAX,
                cols > 0 ==> small@.len() == cols * rows,
                cols > 0 ==> resize_fits(n as int, frame_w as int, frame_h as int, cols as int, rows as int),
                n == frame_w * frame_h,
                3 * n <= rgb_data@.len(),
                total == rgb_data@.len(),
                rows * frame_h <= usize::MAX,
                cols * frame_w <= usize::MAX,
                sharp@ == g1,
                g1 == sharpened_image(gray_pixels(rgb_data@, gamma@, n as int), frame_w as int, frame_h as int),
                g1.len() == n,
                forall|c: int|
                    0 <= c < small@.len() ==> #[trigger] small@[c] == sharp@[resize_source(
                        frame_w as int,
                        frame_h as int,
                        cols as int,
                        rows as int,
                        c,
                    )],
                row@.len() == x,
                use_color ==> crow@.len() == x,
                forall|xx: int|
                    0 <= xx < x ==> #[trigger] row@[xx] == frame_char(
                        rgb_data@,
                        gamma@,
                        frame_w as int,
                        frame_h as int,
                        cols as int,
                        rows as int,
                        xx,
                        y as int,
                    ),
                use_color ==> forall|xx: int|
                    0 <= xx < x ==> #[trigger] crow@[xx] == frame_color(
                        rgb_data@,
                        frame_w as int,
                        frame_h as int,
                        cols as int,
                        rows as int,
                        xx,
                        y as int,
                    ),
            decreases cols - x,
        {
            let c = y * cols + x;
            let g = small[c];
            let k = bayer(y % 4, x % 4);
            let idx = ramp_index(g, k);
            proof {
                assert(g == frame_shade(
                    rgb_data@,
                    gamma@,
                    frame_w as int,
                    frame_h as int,
                    cols as int,
                    rows as int,
                    y * cols + x,
                ));
            }
            row.push(ramp_char(idx));
            if use_color {
                proof {
                    let s = resize_source(frame_w as int, frame_h as int, cols as int, rows as int, c as int);
                    assert(0 <= s < n);
                    assert(c as int / cols as int == y as int && c as int % cols as int == x as int) by {
                        vstd::arithmetic::div_mod::lemma_fundamental_div_mod_converse(
                            c as int,
                            cols as int,
                            y as int,
                            x as int,
                        );
                    }
                    assert(y * frame_h <= rows * frame_h) by (nonlinear_arith)
                        requires
                            y < rows,
                    ;
                    assert(x * frame_w <= cols * frame_w) by (nonlinear_arith)
                        requires
                            x < cols,
                    ;
                }
                let sy = y * frame_h / rows;
                let sx = x * frame_w / cols;
                let si = (sy * frame_w + sx) * 3;
                crow.push((rgb_data[si], rgb_data[si + 1], rgb_data[si + 2]));
            }
            x = x + 1;
        }
        text.push(row);
        if use_color {
            fg.push(crow);
        }
        y = y + 1;
    }
    proof {
        if use_color && cols > 0 && rows > 0 && (forall|i: int|
            0 <= i < frame_w * frame_h ==> #[trigger] same_pixel(rgb_data@, i, 0)) {
            lemma_uniform_frame_colours(
                rgb_data@,
                frame_w as int,
                frame_h as int,
                cols as int,
                rows as int,
            );
        }
    }
    (text, fg)
}

/// Pixels `i` and `j` of an RGB frame have the same three channels.
pub open spec fn same_pixel(rgb: Seq<u8>, i: int, j: int) -> bool {
    rgb[3 * i] == rgb[3 * j] && rgb[3 * i + 1] == rgb[3 * j + 1] && rgb[3 * i + 2] == rgb[3 * j + 2]
}

/// A frame whose pixels all share one RGB triple shows that triple, in the
/// same channel order, in every colour cell.
pub proof fn lemma_uniform_frame_colours(rgb: Seq<u8>, fw: int, fh: int, cols: int, rows: int)
    requires
        cols > 0,
        rows > 0,
        resize_fits(fw * fh, fw, fh, cols, rows),
        forall|i: int| 0 <= i < fw * fh ==> #[trigger] same_pixel(rgb, i, 0),
    ensures
        forall|y: int, x: int|
            0 <= y < rows && 0 <= x < cols ==> #[trigger] frame_color(rgb, fw, fh, cols, rows, x, y) == (
                rgb[0],
                rgb[1],
                rgb[2],
            ),
{
    assert forall|y: int, x: int| 0 <= y < rows && 0 <= x < cols implies #[trigger] frame_color(
        rgb,
        fw,
        fh,
        cols,
        rows,
        x,
        y,
    ) == (rgb[0], rgb[1], rgb[2]) by {
        assert(0 <= y * cols + x < cols * rows) by (nonlinear_arith)
            requires
                0 <= y < rows,
                0 <= x < cols,
        ;
        let s = resize_source(fw, fh, cols, rows, y * cols + x);
        assert(0 <= s < fw * fh);
        assert(same_pixel(rgb, s, 0));
    }
}


// ---------------------------------------------------------------------------
// Bounding boxes
// ---------------------------------------------------------------------------

pub const BOX_HORIZONTAL: char = '\u{2500}';
pub const BOX_VERTICAL: char = '\u{2502}';
pub const BOX_TOP_LEFT: char = '\u{250c}';
pub const BOX_TOP_RIGHT: char = '\u{2510}';
pub const BOX_BOTTOM_LEFT: char = '\u{2514}';
pub const BOX_BOTTOM_RIGHT: char = '\u{2518}';

/// Frame coordinate `v` (of `full`) mapped to one of `cells` cells,
/// capped at the last cell.
pub open spec fn to_cell(v: int, cells: int, full: int) -> int {
    let s = v * cells / full;
    let hi = if cells >= 1 {
        cells - 1
    } else {
        0
    };
    if s > hi {
        hi
    } else {
        s
    }
}

/// The cell rectangle (left, right, top, bottom) of a frame box, and
/// whether it is drawn: a non-empty box whose cell rectangle spans at
/// least two cells each way.
pub open spec fn box_cells(
    fw: int,
    fh: int,
    bbox: (usize, usize, usize, usize),
    cols: int,
    rows: int,
) -> (int, int, int, int, bool) {
    let (x1, y1, x2, y2) = bbox;
    if x2 <= x1 || y2 <= y1 {
        (0, 0, 0, 0, false)
    } else {
        let ax1 = to_cell(x1 as int, cols, fw);
        let ax2 = to_cell(x2 as int, cols, fw);
        let ay1 = to_cell(y1 as int, rows, fh);
        let ay2 = to_cell(y2 as int, rows, fh);
        (ax1, ax2, ay1, ay2, ax2 - ax1 >= 2 && ay2 - ay1 >= 2)
    }
}

/// Cell (`r`, `c`) lies on the outline of the cell rectangle.
pub open spec fn on_outline(r: int, c: int, ax1: int, ax2: int, ay1: int, ay2: int) -> bool {
    ||| (c == ax1 || c == ax2) && ay1 <= r <= ay2
    ||| (r == ay1 || r == ay2) && ax1 <= c <= ax2
}

/// Character at (`r`, `c`) once the outline is drawn over `old`.
pub open spec fn outline_char(old: char, r: int, c: int, ax1: int, ax2: int, ay1: int, ay2: int) -> char {
    if r == ay1 && c == ax1 {
        BOX_TOP_LEFT
    } else if r == ay1 && c == ax2 {
        BOX_TOP_RIGHT
    } else if r == ay2 && c == ax1 {
        BOX_BOTTOM_LEFT
    } else if r == ay2 && c == ax2 {
        BOX_BOTTOM_RIGHT
    } else if (c == ax1 || c == ax2) && ay1 <= r <= ay2 {
        BOX_VERTICAL
    } else if (r == ay1 || r == ay2) && ax1 <= c <= ax2 {
        BOX_HORIZONTAL
    } else {
        old
    }
}

/// Both grids have the same shape.
pub open spec fn same_shape<A, B>(a: Seq<Vec<A>>, b: Seq<Vec<B>>) -> bool {
    a.len() == b.len() && forall|r: int| 0 <= r < a.len() ==> (#[trigger] a[r])@.len() == b[r]@.len()
}

fn put(
    text: &mut [Vec<char>],
    colors: &mut [Vec<(u8, u8, u8)>],
    r: usize,
    c: usize,
    ch: char,
    col: (u8, u8, u8),
)
    requires
        r < old(text)@.len(),
        r < old(colors)@.len(),
        c < old(text)@[r as int]@.len(),
        c < old(colors)@[r as int]@.len(),
    ensures
        final(text)@.len() == old(text)@.len(),
        final(colors)@.len() == old(colors)@.len(),
        forall|i: int|
            0 <= i < old(text)@.len() ==> (#[trigger] final(text)@[i])@ == if i == r {
                old(text)@[i]@.update(c as int, ch)
            } else {
                old(text)@[i]@
            },
        forall|i: int|
            0 <= i < old(colors)@.len() ==> (#[trigger] final(colors)@[i])@ == if i == r {
                old(colors)@[i]@.update(c as int, col)
            } else {
                old(colors)@[i]@
            },
{
    text[r][c] = ch;
    colors[r][c] = col;
}


/// Draws the outline of frame box `bbox` (x1, y1, x2, y2 in a
/// `fw` x `fh` frame) onto a `ascii_cols` x `ascii_rows` character grid
/// and its colour grid, in colour `col`. Boxes that are empty, or whose
/// cell rectangle spans fewer than two cells in either direction, are not
/// drawn.
pub fn overlay_bbox_color(
    text: &mut [Vec<char>],
    colors: &mut [Vec<(u8, u8, u8)>],
    fw: usize,
    fh: usize,
    bbox: (usize, usize, usize, usize),
    ascii_cols: usize,
    ascii_rows: usize,
    col: (u8, u8, u8),
    _label: &str,
)
    requires
        ({
            let (x1, y1, x2, y2) = bbox;
            x1 < x2 && y1 < y2 ==> fw > 0 && fh > 0 && x2 * ascii_cols <= usize::MAX && y2 * ascii_rows
                <= usize::MAX
        }),
        ({
            let g = box_cells(fw as int, fh as int, bbox, ascii_cols as int, ascii_rows as int);
            g.4 ==> {
                &&& g.3 < old(text)@.len()
                &&& g.3 < old(colors)@.len()
                &&& forall|r: int| g.2 <= r <= g.3 ==> g.1 < (#[trigger] old(text)@[r])@.len()
                &&& forall|r: int| g.2 <= r <= g.3 ==> g.1 < (#[trigger] old(colors)@[r])@.len()
            }
        }),
    ensures
        same_shape(final(text)@, old(text)@),
        same_shape(final(colors)@, old(colors)@),
        ({
            let g = box_cells(fw as int, fh as int, bbox, ascii_cols as int, ascii_rows as int);
            &&& forall|r: int, c: int|
                0 <= r < old(text)@.len() && 0 <= c < old(text)@[r]@.len() ==> #[trigger] final(text)@[r]@[c]
                    == if g.4 {
                    outline_char(old(text)@[r]@[c], r, c, g.0, g.1, g.2, g.3)
                } else {
                    old(text)@[r]@[c]
                }
            &&& forall|r: int, c: int|
                0 <= r < old(colors)@.len() && 0 <= c < old(colors)@[r]@.len() ==> #[trigger] final(colors)@[r]@[c] == if g.4 && on_outline(r, c, g.0, g.1, g.2, g.3) {
                    col
                } else {
                    old(colors)@[r]@[c]
                }
            &&& g.4 ==> forall|r: int|
                g.2 <= r <= g.3 ==> #[trigger] final(colors)@[r]@[g.0] == col && final(colors)@[r]@[g.1] == col
            &&& g.4 ==> forall|c: int|
                g.0 <= c <= g.1 ==> #[trigger] final(colors)@[g.2]@[c] == col && final(colors)@[g.3]@[c] == col
            &&& g.4 ==> forall|r: int|
                g.2 < r < g.3 ==> #[trigger] final(text)@[r]@[g.0] == BOX_VERTICAL && final(text)@[r]@[g.1]
                    == BOX_VERTICAL
            &&& g.4 ==> forall|c: int|
                g.0 < c < g.1 ==> #[trigger] final(text)@[g.2]@[c] == BOX_HORIZONTAL && final(text)@[g.3]@[c]
                    == BOX_HORIZONTAL
            &&& g.4 ==> final(text)@[g.2]@[g.0] == BOX_TOP_LEFT && final(text)@[g.2]@[g.1] == BOX_TOP_RIGHT
                && final(text)@[g.3]@[g.0] == BOX_BOTTOM_LEFT && final(text)@[g.3]@[g.1] == BOX_BOTTOM_RIGHT
            &&& forall|r: int, c: int|
                0 <= r < old(text)@.len() && 0 <= c < old(text)@[r]@.len() && !(g.4 && g.2 <= r <= g.3 && (c
                    == g.0 || c == g.1)) && !(g.4 && g.0 <= c <= g.1 && (r == g.2 || r == g.3))
                    ==> #[trigger] final(text)@[r]@[c] == old(text)@[r]@[c]
            &&& forall|r: int, c: int|
                0 <= r < old(colors)@.len() && 0 <= c < old(colors)@[r]@.len() && !(g.4 && g.2 <= r <= g.3
                    && (c == g.0 || c == g.1)) && !(g.4 && g.0 <= c <= g.1 && (r == g.2 || r == g.3))
                    ==> #[trigger] final(colors)@[r]@[c] == old(colors)@[r]@[c]
        }),
{
    let ghost t0 = text@;
    let ghost c0 = colors@;
    let (x1, y1, x2, y2) = bbox;
    if x2 <= x1 || y2 <= y1 {
        return;
    }
    let cmax = if ascii_cols >= 1 {
        ascii_cols - 1
    } else {
        0
    };
    let rmax = if ascii_rows >= 1 {
        ascii_rows - 1
    } else {
        0
    };
    proof {
        assert(x1 * ascii_cols <= x2 * ascii_cols) by (nonlinear_arith)
            requires
                x1 < x2,
        ;
        assert(y1 * ascii_rows <= y2 * ascii_rows) by (nonlinear_arith)
            requires
                y1 < y2,
        ;
        vstd::arithmetic::div_mod::lemma_div_is_ordered(
            x1 * ascii_cols as int,
            x2 * ascii_cols as int,
            fw as int,
        );
        vstd::arithmetic::div_mod::lemma_div_is_ordered(
            y1 * ascii_rows as int,
            y2 * ascii_rows as int,
            fh as int,
        );
    }
    let sx1 = x1 * ascii_cols / fw;
    let sx2 = x2 * ascii_cols / fw;
    let sy1 = y1 * ascii_rows / fh;
    let sy2 = y2 * ascii_rows / fh;
    let ax1 = if sx1 > cmax {
        cmax
    } else {
        sx1
    };
    let ax2 = if sx2 > cmax {
        cmax
    } else {
        sx2
    };
    let ay1 = if sy1 > rmax {
        rmax
    } else {
        sy1
    };
    let ay2 = if sy2 > rmax {
        rmax
    } else {
        sy2
    };
    if ax2 - ax1 < 2 || ay2 - ay1 < 2 {
        return;
    }
    // top and bottom edges
    let mut x = ax1;
    while x <= ax2
        invariant
            ax1 <= x <= ax2 + 1,
            ax2 <= cmax,
            ax2 < ascii_cols,
            ay2 < ascii_rows,
            ax1 + 2 <= ax2,
            ay1 + 2 <= ay2,
            ay2 < t0.len(),
            ay2 < c0.len(),
            forall|r: int| ay1 <= r <= ay2 ==> ax2 < (#[trigger] t0[r])@.len(),
            forall|r: int| ay1 <= r <= ay2 ==> ax2 < (#[trigger] c0[r])@.len(),
            same_shape(text@, t0),
            same_shape(colors@, c0),
            forall|r: int, c: int|
                0 <= r < t0.len() && 0 <= c < t0[r]@.len() ==> #[trigger] text@[r]@[c] == if (r == ay1
                    || r == ay2) && ax1 <= c < x {
                    BOX_HORIZONTAL
                } else {
                    t0[r]@[c]
                },
            forall|r: int, c: int|
                0 <= r < c0.len() && 0 <= c < c0[r]@.len() ==> #[trigger] colors@[r]@[c] == if (r == ay1
                    || r == ay2) && ax1 <= c < x {
                    col
                } else {
                    c0[r]@[c]
                },
        decreases ax2 + 1 - x,
    {
        let ghost ta = text@;
        let ghost ca = colors@;
        if x < ascii_cols {
            if ay1 < ascii_rows {
                put(text, colors, ay1, x, BOX_HORIZONTAL, col);
            }
            if ay2 < ascii_rows {
                put(text, colors, ay2, x, BOX_HORIZONTAL, col);
            }
        }
        proof {
            assert forall|r: int, c: int|
                0 <= r < t0.len() && 0 <= c < t0[r]@.len() implies #[trigger] text@[r]@[c] == if (r == ay1
                || r == ay2) && ax1 <= c < x + 1 {
                BOX_HORIZONTAL
            } else {
                t0[r]@[c]
            } by {
                assert(ta[r]@[c] == if (r == ay1 || r == ay2) && ax1 <= c < x {
                    BOX_HORIZONTAL
                } else {
                    t0[r]@[c]
                });
            }
            assert forall|r: int, c: int|
                0 <= r < c0.len() && 0 <= c < c0[r]@.len() implies #[trigger] colors@[r]@[c] == if (r == ay1
                || r == ay2) && ax1 <= c < x + 1 {
                col
            } else {
                c0[r]@[c]
            } by {
                assert(ca[r]@[c] == if (r == ay1 || r == ay2) && ax1 <= c < x {
                    col
                } else {
                    c0[r]@[c]
                });
            }
        }
        x = x + 1;
    }
    // left and right edges
    let mut y = ay1;
    while y <= ay2
        invariant
            ay1 <= y <= ay2 + 1,
            ay2 <= rmax,
            ax2 < ascii_cols,
            ay2 < ascii_rows,
            ax1 + 2 <= ax2,
            ay1 + 2 <= ay2,
            ay2 < t0.len(),
            ay2 < c0.len(),
            forall|r: int| ay1 <= r <= ay2 ==> ax2 < (#[trigger] t0[r])@.len(),
            forall|r: int| ay1 <= r <= ay2 ==> ax2 < (#[trigger] c0[r])@.len(),
            same_shape(text@, t0),
            same_shape(colors@, c0),
            forall|r: int, c: int|
                0 <= r < t0.len() && 0 <= c < t0[r]@.len() ==> #[trigger] text@[r]@[c] == if (c == ax1
                    || c == ax2) && ay1 <= r < y {
                    BOX_VERTICAL
                } else if (r == ay1 || r == ay2) && ax1 <= c <= ax2 {
                    BOX_HORIZONTAL
                } else {
                    t0[r]@[c]
                },
            forall|r: int, c: int|
                0 <= r < c0.len() && 0 <= c < c0[r]@.len() ==> #[trigger] colors@[r]@[c] == if ((c == ax1
                    || c == ax2) && ay1 <= r < y) || ((r == ay1 || r == ay2) && ax1 <= c <= ax2) {
                    col
                } else {
                    c0[r]@[c]
                },
        decreases ay2 + 1 - y,
    {
        let ghost ta = text@;
        let ghost ca = colors@;
        if y < ascii_rows {
            if ax1 < ascii_cols {
                put(text, colors, y, ax1, BOX_VERTICAL, col);
            }
            if ax2 < ascii_cols {
                put(text, colors, y, ax2, BOX_VERTICAL, col);
            }
        }
        proof {
            assert forall|r: int, c: int|
                0 <= r < t0.len() && 0 <= c < t0[r]@.len() implies #[trigger] text@[r]@[c] == if (c == ax1
                || c == ax2) && ay1 <= r < y + 1 {
                BOX_VERTICAL
            } else if (r == ay1 || r == ay2) && ax1 <= c <= ax2 {
                BOX_HORIZONTAL
            } else {
                t0[r]@[c]
            } by {
                assert(ta[r]@[c] == if (c == ax1 || c == ax2) && ay1 <= r < y {
                    BOX_VERTICAL
                } else if (r == ay1 || r == ay2) && ax1 <= c <= ax2 {
                    BOX_HORIZONTAL
                } else {
                    t0[r]@[c]
                });
            }
            assert forall|r: int, c: int|
                0 <= r < c0.len() && 0 <= c < c0[r]@.len() implies #[trigger] colors@[r]@[c] == if ((c
                == ax1 || c == ax2) && ay1 <= r < y + 1) || ((r == ay1 || r == ay2) && ax1 <= c <= ax2) {
                col
            } else {
                c0[r]@[c]
            } by {
                assert(ca[r]@[c] == if ((c == ax1 || c == ax2) && ay1 <= r < y) || ((r == ay1 || r == ay2)
                    && ax1 <= c <= ax2) {
                    col
                } else {
                    c0[r]@[c]
                });
            }
        }
        y = y + 1;
    }
    if ay1 < ascii_rows && ax1 < ascii_cols {
        put(text, colors, ay1, ax1, BOX_TOP_LEFT, col);
    }
    if ay1 < ascii_rows && ax2 < ascii_cols {
        put(text, colors, ay1, ax2, BOX_TOP_RIGHT, col);
    }
    if ay2 < ascii_rows && ax1 < ascii_cols {
        put(text, colors, ay2, ax1, BOX_BOTTOM_LEFT, col);
    }
    if ay2 < ascii_rows && ax2 < ascii_cols {
        put(text, colors, ay2, ax2, BOX_BOTTOM_RIGHT, col);
    }
}


// ---------------------------------------------------------------------------
// Properties
// ---------------------------------------------------------------------------

/// Sharpening leaves a flat image unchanged.
pub proof fn lemma_sharpen_flat(src: Seq<u8>, w: int, h: int, i: int)
    requires
        0 <= i < src.len(),
        forall|j: int| 0 <= j < src.len() ==> #[trigger] src[j] == src[0],
        interior(w, h, i) ==> 0 <= i - w && i + w < src.len(),
    ensures
        sharpened(src, w, h, i) == src[i],
{
    if interior(w, h, i) {
        assert(src[i - w] == src[0] && src[i + w] == src[0]);
        assert(src[i - 1] == src[0] && src[i + 1] == src[0]);
    }
}

/// Resampling to the same size reads every pixel from its own position.
pub proof fn lemma_resize_same_size(w: int, h: int, c: int)
    requires
        w > 0,
        h > 0,
        0 <= c < w * h,
    ensures
        resize_source(w, h, w, h, c) == c,
{
    let y = c / w;
    let x = c % w;
    vstd::arithmetic::div_mod::lemma_fundamental_div_mod(c, w);
    vstd::arithmetic::div_mod::lemma_mod_pos_bound(c, w);
    assert(y * h / h == y) by {
        vstd::arithmetic::div_mod::lemma_div_multiples_vanish(y, h);
        assert(h * y == y * h) by (nonlinear_arith);
    }
    assert(x * w / w == x) by {
        vstd::arithmetic::div_mod::lemma_div_multiples_vanish(x, w);
        assert(w * x == x * w) by (nonlinear_arith);
    }
    assert(y * w == w * y) by (nonlinear_arith);
}

/// A brighter grey level never maps to an earlier ramp character.
pub proof fn lemma_ramp_index_monotone(g1: int, g2: int, k: int)
    requires
        0 <= g1 <= g2,
        0 <= k,
    ensures
        ramp_index_spec(g1, k) <= ramp_index_spec(g2, k),
{
    vstd::arithmetic::div_mod::lemma_div_is_ordered(g1 * 69 * 16 + 255 * k, g2 * 69 * 16 + 255 * k, 4080);
}

/// Black is a blank and full white the last ramp character, whatever the
/// dither offset.
pub proof fn lemma_ramp_index_ends(k: int)
    requires
        0 <= k < 16,
    ensures
        ramp_index_spec(0, k) == 0,
        ramp_index_spec(255, k) == 68,
{
}


/// Cell (`a`, `b`) of a grid with rows of `w` cells: row `a`, column `b`.
proof fn lemma_cell_coords(w: int, a: int, b: int)
    requires
        0 <= b < w,
        0 <= a,
    ensures
        (a * w + b) % w == b,
        (a * w + b) / w == a,
        0 <= a * w + b,
        a * w + b < (a + 1) * w,
{
    vstd::arithmetic::div_mod::lemma_fundamental_div_mod_converse(a * w + b, w, a, b);
    assert(0 <= a * w) by (nonlinear_arith)
        requires
            0 <= a,
            0 <= b < w,
    ;
    assert((a + 1) * w == a * w + w) by (nonlinear_arith);
}

/// The image flipped about its main diagonal (square, `w` x `w`).
pub open spec fn transposed(src: Seq<u8>, w: int) -> Seq<u8> {
    Seq::new((w * w) as nat, |j: int| src[(j % w) * w + j / w])
}

/// The image with each of its rows reversed (`w` x `h`).
pub open spec fn mirrored(src: Seq<u8>, w: int, h: int) -> Seq<u8> {
    Seq::new((w * h) as nat, |j: int| src[(j / w) * w + (w - 1 - j % w)])
}

/// Sharpening commutes with transposition: the kernel weighs the upper,
/// lower, left and right neighbours alike.
pub proof fn lemma_sharpen_transpose(src: Seq<u8>, w: int, i: int)
    requires
        w >= 1,
        src.len() == w * w,
        0 <= i < w * w,
    ensures
        sharpened(transposed(src, w), w, w, (i % w) * w + i / w) == sharpened(src, w, w, i),
{
    let x = i % w;
    let y = i / w;
    vstd::arithmetic::div_mod::lemma_fundamental_div_mod(i, w);
    vstd::arithmetic::div_mod::lemma_mod_pos_bound(i, w);
    vstd::arithmetic::div_mod::lemma_div_pos_is_pos(i, w);
    assert(i == y * w + x) by (nonlinear_arith)
        requires
            i == w * y + x,
    ;
    assert(y < w) by (nonlinear_arith)
        requires
            i == y * w + x,
            0 <= x,
            i < w * w,
            w >= 1,
    ;
    let tr = transposed(src, w);
    let t = x * w + y;
    lemma_cell_coords(w, x, y);
    lemma_cell_coords(w, y, x);
    assert((x + 1) * w <= w * w) by (nonlinear_arith)
        requires
            x < w,
            w >= 1,
    ;
    assert(tr[t] == src[i]);
    if interior(w, w, i) {
        assert(interior(w, w, t));
        // the transposed image's upper, lower, left, right neighbours
        lemma_cell_coords(w, x - 1, y);
        lemma_cell_coords(w, x + 1, y);
        lemma_cell_coords(w, x, y - 1);
        lemma_cell_coords(w, x, y + 1);
        lemma_cell_coords(w, y, x - 1);
        lemma_cell_coords(w, y, x + 1);
        lemma_cell_coords(w, y - 1, x);
        lemma_cell_coords(w, y + 1, x);
        assert((x - 1) * w + y == t - w) by (nonlinear_arith)
            requires
                t == x * w + y,
        ;
        assert((x + 1) * w + y == t + w) by (nonlinear_arith)
            requires
                t == x * w + y,
        ;
        assert((y - 1) * w + x == i - w) by (nonlinear_arith)
            requires
                i == y * w + x,
        ;
        assert((y + 1) * w + x == i + w) by (nonlinear_arith)
            requires
                i == y * w + x,
        ;
        assert((x + 2) * w <= w * w) by (nonlinear_arith)
            requires
                x + 2 <= w,
                w >= 1,
        ;
        assert((y + 2) * w <= w * w) by (nonlinear_arith)
            requires
                y + 2 <= w,
                w >= 1,
        ;
        assert(tr[t - w] == src[i - 1]);
        assert(tr[t + w] == src[i + 1]);
        assert(tr[t - 1] == src[i - w]);
        assert(tr[t + 1] == src[i + w]);
    } else {
        assert(!interior(w, w, t));
    }
}

/// Sharpening commutes with reversing every row: left and right
/// neighbours weigh alike.
pub proof fn lemma_sharpen_mirror(src: Seq<u8>, w: int, h: int, i: int)
    requires
        w >= 1,
        h >= 0,
        src.len() == w * h,
        0 <= i < w * h,
    ensures
        sharpened(mirrored(src, w, h), w, h, (i / w) * w + (w - 1 - i % w)) == sharpened(src, w, h, i),
{
    let x = i % w;
    let y = i / w;
    vstd::arithmetic::div_mod::lemma_fundamental_div_mod(i, w);
    vstd::arithmetic::div_mod::lemma_mod_pos_bound(i, w);
    vstd::arithmetic::div_mod::lemma_div_pos_is_pos(i, w);
    assert(i == y * w + x) by (nonlinear_arith)
        requires
            i == w * y + x,
    ;
    assert(y < h) by (nonlinear_arith)
        requires
            i == y * w + x,
            0 <= x,
            i < w * h,
            w >= 1,
    ;
    let mi = mirrored(src, w, h);
    let xm = w - 1 - x;
    let t = y * w + xm;
    lemma_cell_coords(w, y, x);
    lemma_cell_coords(w, y, xm);
    assert((y + 1) * w <= w * h) by (nonlinear_arith)
        requires
            y < h,
            w >= 1,
    ;
    assert(mi[t] == src[i]);
    if interior(w, h, i) {
        assert(interior(w, h, t));
        lemma_cell_coords(w, y, xm - 1);
        lemma_cell_coords(w, y, xm + 1);
        lemma_cell_coords(w, y - 1, xm);
        lemma_cell_coords(w, y + 1, xm);
        lemma_cell_coords(w, y - 1, x);
        lemma_cell_coords(w, y + 1, x);
        assert((y - 1) * w + xm == t - w) by (nonlinear_arith)
            requires
                t == y * w + xm,
        ;
        assert((y + 1) * w + xm == t + w) by (nonlinear_arith)
            requires
                t == y * w + xm,
        ;
        assert((y - 1) * w + x == i - w) by (nonlinear_arith)
            requires
                i == y * w + x,
        ;
        assert((y + 1) * w + x == i + w) by (nonlinear_arith)
            requires
                i == y * w + x,
        ;
        assert((y + 2) * w <= w * h) by (nonlinear_arith)
            requires
                y + 2 <= h,
                w >= 1,
        ;
        assert(mi[t - 1] == src[i + 1]);
        assert(mi[t + 1] == src[i - 1]);
        assert(mi[t - w] == src[i - w]);
        assert(mi[t + w] == src[i + w]);
    } else {
        assert(!interior(w, h, t));
    }
}

/// A lone pixel on black, away from the border, comes out five times as
/// bright (capped at 255).
pub proof fn lemma_sharpen_impulse(src: Seq<u8>, w: int, h: int, i: int)
    requires
        interior(w, h, i),
        0 <= i - w,
        i + w < src.len(),
        src[i - w] == 0,
        src[i + w] == 0,
        src[i - 1] == 0,
        src[i + 1] == 0,
    ensures
        sharpened(src, w, h, i) == if 5 * src[i] > 255 {
            255
        } else {
            5 * src[i]
        },
{
}

} // verus!
