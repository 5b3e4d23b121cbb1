//! Render a captured ramfb framebuffer region: as a PPM (P6) image, or as one `u32` per
//! pixel for a window. Each pixel is 4 bytes, little-endian XRGB8888 (`[B, G, R, pad]`);
//! `stride` may exceed `width * 4` (row padding). Bytes past the end of the region read
//! as 0 rather than failing.

use vstd::prelude::*;
use crate::text::{decimal, push_decimal};

verus! {

/// The byte at `at`, or 0 past the end.
pub open spec fn channel(pixels: Seq<u8>, at: int) -> u8 {
    if 0 <= at < pixels.len() {
        pixels[at]
    } else {
        0
    }
}

/// The red, green and blue of the pixel at byte offset `at`.
pub open spec fn rgb(pixels: Seq<u8>, at: int) -> Seq<u8> {
    seq![channel(pixels, at + 2), channel(pixels, at + 1), channel(pixels, at)]
}

/// The first `n` pixels of the row that starts at byte offset `start`.
pub open spec fn rgb_row(pixels: Seq<u8>, start: int, n: nat) -> Seq<u8>
    decreases n,
{
    if n == 0 {
        Seq::empty()
    } else {
        rgb_row(pixels, start, (n - 1) as nat) + rgb(pixels, start + 4 * (n - 1))
    }
}

/// The first `n` rows.
pub open spec fn rgb_rows(pixels: Seq<u8>, width: nat, stride: nat, n: nat) -> Seq<u8>
    decreases n,
{
    if n == 0 {
        Seq::empty()
    } else {
        rgb_rows(pixels, width, stride, (n - 1) as nat) + rgb_row(
            pixels,
            (n - 1) * stride,
            width,
        )
    }
}

/// The PPM header: "P6", the size, and the largest channel value.
pub open spec fn ppm_header(width: nat, height: nat) -> Seq<u8> {
    seq![0x50u8, 0x36, 0x0a] + decimal(width) + seq![0x20u8] + decimal(height) + seq![
        0x0au8,
        0x32,
        0x35,
        0x35,
        0x0a,
    ]
}

fn channel_at(pixels: &[u8], at: u128) -> (r: u8)
    ensures
        r == channel(pixels@, at as int),
{
    if at < pixels.len() as u128 {
        pixels[at as usize]
    } else {
        0
    }
}

/// Decode one XRGB8888 pixel's `(r, g, b)` channels at byte offset `offset`. A missing
/// byte degrades its channel to 0, not the whole pixel.
pub fn decode_pixel(pixels: &[u8], offset: u128) -> (r: (u8, u8, u8))
    requires
        offset < 0x1_0000_0000_0000_0000_0000,
    ensures
        seq![r.0, r.1, r.2] == rgb(pixels@, offset as int),
{
    let b: u8 = channel_at(pixels, offset);
    let g: u8 = channel_at(pixels, offset + 1);
    let r: u8 = channel_at(pixels, offset + 2);
    (r, g, b)
}

/// The byte offset of pixel `x` of row `y`.
fn pixel_offset(x: u32, y: u32, stride: u32) -> (r: u128)
    ensures
        r == y * stride + 4 * x,
        r < 0x1_0000_0000_0000_0000_0000,
{
    proof {
        assert(0 <= y * stride <= 0xffff_ffff * 0xffff_ffff) by (nonlinear_arith)
            requires
                0 <= y <= 0xffff_ffff,
                0 <= stride <= 0xffff_ffff,
        ;
    }
    y as u128 * stride as u128 + 4 * x as u128
}

/// Render `pixels` (`height` rows of `stride` bytes) as a binary PPM (P6) image of
/// `width` x `height`. Only the first `width * 4` bytes of a row are pixels.
pub fn render_ppm(pixels: &[u8], width: u32, height: u32, stride: u32) -> (r: Vec<u8>)
    ensures
        r@ == ppm_header(width as nat, height as nat) + rgb_rows(
            pixels@,
            width as nat,
            stride as nat,
            height as nat,
        ),
        forall|x: int, y: int, c: int|
            0 <= x < width && 0 <= y < height && 0 <= c < 3 ==> r@[#[trigger] (ppm_header(
                width as nat,
                height as nat,
            ).len() + 3 * (y * width + x) + c)] == if y * stride + 4 * x + 2 - c < pixels@.len() {
                pixels@[y * stride + 4 * x + 2 - c]
            } else {
                0
            },
{
    let mut out: Vec<u8> = vec![0x50, 0x36, 0x0a];
    push_decimal(&mut out, width as u64);
    out.push(0x20);
    push_decimal(&mut out, height as u64);
    out.push(0x0a);
    out.push(0x32);
    out.push(0x35);
    out.push(0x35);
    out.push(0x0a);
    let ghost header = ppm_header(width as nat, height as nat);
    proof {
        assert(out@ =~= header);
        assert(out@ =~= header + rgb_rows(pixels@, width as nat, stride as nat, 0));
    }
    let mut y: u32 = 0;
    while y < height
        invariant
            y <= height,
            out@ == header + rgb_rows(pixels@, width as nat, stride as nat, y as nat),
        decreases height - y,
    {
        let ghost above = out@;
        let mut x: u32 = 0;
        proof {
            assert(out@ =~= above + rgb_row(pixels@, y * stride, 0));
        }
        while x < width
            invariant
                x <= width,
                out@ == above + rgb_row(pixels@, y * stride, x as nat),
            decreases width - x,
        {
            let ghost before = out@;
            let (r, g, b) = decode_pixel(pixels, pixel_offset(x, y, stride));
            out.push(r);
            out.push(g);
            out.push(b);
            proof {
                assert(out@ =~= before + seq![r, g, b]);
                assert(out@ =~= above + rgb_row(pixels@, y * stride, (x + 1) as nat));
            }
            x += 1;
        }
        proof {
            assert(out@ =~= header + rgb_rows(
                pixels@,
                width as nat,
                stride as nat,
                (y + 1) as nat,
            ));
        }
        y += 1;
    }
    proof {
        assert forall|x: int, y: int, c: int|
            0 <= x < width && 0 <= y < height && 0 <= c < 3 implies out@[#[trigger] (header.len()
            + 3 * (y * width + x) + c)] == if y * stride + 4 * x + 2 - c < pixels@.len() {
            pixels@[y * stride + 4 * x + 2 - c]
        } else {
            0
        } by {
            law_every_pixel_is_in_the_image(
                pixels@,
                width as nat,
                height as nat,
                stride as nat,
                x,
                y,
                c,
            );
        }
    }
    out
}

/// The pixel at byte offset `at` as `0x00RRGGBB`.
pub open spec fn packed(pixels: Seq<u8>, at: int) -> u32 {
    (channel(pixels, at + 2) * 0x1_0000 + channel(pixels, at + 1) * 0x100 + channel(
        pixels,
        at,
    )) as u32
}

/// The first `n` pixels of the row that starts at byte offset `start`, packed.
pub open spec fn packed_row(pixels: Seq<u8>, start: int, n: nat) -> Seq<u32> {
    Seq::new(n, |i: int| packed(pixels, start + 4 * i))
}

/// The first `n` rows, packed.
pub open spec fn packed_rows(pixels: Seq<u8>, width: nat, stride: nat, n: nat) -> Seq<u32>
    decreases n,
{
    if n == 0 {
        Seq::empty()
    } else {
        packed_rows(pixels, width, stride, (n - 1) as nat) + packed_row(
            pixels,
            (n - 1) * stride,
            width,
        )
    }
}

/// Render `pixels` as one `u32` per pixel, `0x00RRGGBB`, row after row: the buffer a
/// window is updated with.
pub fn to_minifb_buffer(pixels: &[u8], width: u32, height: u32, stride: u32) -> (r: Vec<u32>)
    ensures
        r@ == packed_rows(pixels@, width as nat, stride as nat, height as nat),
        r@.len() == width * height,
        forall|x: int, y: int|
            0 <= x < width && 0 <= y < height ==> r@[#[trigger] (y * width + x)] as int
                == byte_or_zero(pixels@, y * stride + 4 * x + 2) * 0x1_0000 + byte_or_zero(
                pixels@,
                y * stride + 4 * x + 1,
            ) * 0x100 + byte_or_zero(pixels@, y * stride + 4 * x),
{
    let mut out: Vec<u32> = Vec::new();
    let mut y: u32 = 0;
    while y < height
        invariant
            y <= height,
            out@ == packed_rows(pixels@, width as nat, stride as nat, y as nat),
        decreases height - y,
    {
        let ghost above = out@;
        let mut x: u32 = 0;
        proof {
            assert(out@ =~= above + packed_row(pixels@, y * stride, 0));
        }
        while x < width
            invariant
                x <= width,
                out@ == above + packed_row(pixels@, y * stride, x as nat),
            decreases width - x,
        {
            let (r, g, b) = decode_pixel(pixels, pixel_offset(x, y, stride));
            proof {
                let p = seq![r, g, b];
                let at = y * stride + 4 * x;
                assert(p[0] == channel(pixels@, at + 2) && p[1] == channel(pixels@, at + 1) && p[2]
                    == channel(pixels@, at));
            }
            out.push(r as u32 * 0x1_0000 + g as u32 * 0x100 + b as u32);
            proof {
                assert(out@ =~= above + packed_row(pixels@, y * stride, (x + 1) as nat));
            }
            x += 1;
        }
        y += 1;
    }
    proof {
        law_every_pixel_is_in_the_window(
            pixels@,
            width as nat,
            height as nat,
            stride as nat,
            0,
            0,
        );
        assert forall|x: int, y: int| 0 <= x < width && 0 <= y < height implies out@[#[trigger] (y
            * width + x)] as int == byte_or_zero(pixels@, y * stride + 4 * x + 2) * 0x1_0000
            + byte_or_zero(pixels@, y * stride + 4 * x + 1) * 0x100 + byte_or_zero(
            pixels@,
            y * stride + 4 * x,
        ) by {
            law_every_pixel_is_in_the_window(
                pixels@,
                width as nat,
                height as nat,
                stride as nat,
                x,
                y,
            );
        }
    }
    out
}

proof fn lemma_row_len(pixels: Seq<u8>, start: int, n: nat)
    ensures
        rgb_row(pixels, start, n).len() == 3 * n,
    decreases n,
{
    if n > 0 {
        lemma_row_len(pixels, start, (n - 1) as nat);
    }
}

/// The image holds three bytes a pixel after its header, whatever `pixels` holds.
pub proof fn law_an_image_has_three_bytes_a_pixel(
    pixels: Seq<u8>,
    width: nat,
    stride: nat,
    height: nat,
)
    ensures
        rgb_rows(pixels, width, stride, height).len() == 3 * width * height,
    decreases height,
{
    if height > 0 {
        law_an_image_has_three_bytes_a_pixel(pixels, width, stride, (height - 1) as nat);
        lemma_row_len(pixels, (height - 1) * stride, width);
        assert(3 * width * (height - 1) + 3 * width == 3 * width * height) by (nonlinear_arith)
            requires
                height > 0,
        ;
    } else {
        assert(3 * width * 0 == 0) by (nonlinear_arith);
    }
}

/// The byte at `at` as a number, or 0 where there is none.
pub open spec fn byte_or_zero(pixels: Seq<u8>, at: int) -> int {
    if at < pixels.len() {
        pixels[at] as int
    } else {
        0
    }
}

proof fn lemma_row_pixel(pixels: Seq<u8>, start: int, n: nat, x: int, c: int)
    requires
        0 <= start,
        0 <= x < n,
        0 <= c < 3,
    ensures
        rgb_row(pixels, start, n)[3 * x + c] == channel(pixels, start + 4 * x + 2 - c),
    decreases n,
{
    lemma_row_len(pixels, start, (n - 1) as nat);
    if x < n - 1 {
        lemma_row_pixel(pixels, start, (n - 1) as nat, x, c);
    }
}

proof fn lemma_rows_pixel(
    pixels: Seq<u8>,
    width: nat,
    stride: nat,
    n: nat,
    x: int,
    y: int,
    c: int,
)
    requires
        0 <= x < width,
        0 <= y < n,
        0 <= c < 3,
    ensures
        0 <= 3 * (y * width + x) + c < rgb_rows(pixels, width, stride, n).len(),
        rgb_rows(pixels, width, stride, n)[3 * (y * width + x) + c] == channel(
            pixels,
            y * stride + 4 * x + 2 - c,
        ),
        0 <= y * stride,
    decreases n,
{
    law_an_image_has_three_bytes_a_pixel(pixels, width, stride, n);
    law_an_image_has_three_bytes_a_pixel(pixels, width, stride, (n - 1) as nat);
    assert(0 <= y * stride) by (nonlinear_arith)
        requires
            0 <= y,
            0 <= stride,
    ;
    assert(0 <= y * width) by (nonlinear_arith)
        requires
            0 <= y,
            0 <= width,
    ;
    assert(y * width + width <= n * width) by (nonlinear_arith)
        requires
            y + 1 <= n,
            0 <= width,
    ;
    assert(3 * width * n == 3 * (n * width)) by (nonlinear_arith);
    assert(3 * width * (n - 1) == 3 * ((n - 1) * width)) by (nonlinear_arith);
    if y < n - 1 {
        lemma_rows_pixel(pixels, width, stride, (n - 1) as nat, x, y, c);
    } else {
        lemma_row_len(pixels, y * stride, width);
        lemma_row_pixel(pixels, y * stride, width, x, c);
    }
}

/// Byte `c` (red, green, blue) of pixel `x` of row `y` of the image is the byte of that channel
/// in the pixel's four, blue first, or 0 where there is none.
pub proof fn law_every_pixel_is_in_the_image(
    pixels: Seq<u8>,
    width: nat,
    height: nat,
    stride: nat,
    x: int,
    y: int,
    c: int,
)
    requires
        0 <= x < width,
        0 <= y < height,
        0 <= c < 3,
    ensures
        ({
            let header = ppm_header(width, height);
            let image = header + rgb_rows(pixels, width, stride, height);
            &&& image.len() == header.len() + 3 * (width * height)
            &&& 0 <= 3 * (y * width + x) + c < 3 * (width * height)
            &&& image[header.len() + 3 * (y * width + x) + c] == if y * stride + 4 * x + 2 - c
                < pixels.len() {
                pixels[y * stride + 4 * x + 2 - c]
            } else {
                0
            }
        }),
{
    law_an_image_has_three_bytes_a_pixel(pixels, width, stride, height);
    lemma_rows_pixel(pixels, width, stride, height, x, y, c);
    assert(3 * width * height == 3 * (width * height)) by (nonlinear_arith);
}

/// The header is "P6", the width and the height in decimal, and 255, each followed by white
/// space: a line end, but a blank between the sizes.
pub proof fn law_the_header_names_the_format_and_the_size(width: nat, height: nat)
    ensures
        ({
            let h = ppm_header(width, height);
            let w = decimal(width).len() as int;
            let n = h.len() as int;
            &&& h[0] == 0x50 && h[1] == 0x36 && h[2] == 0x0a
            &&& h.subrange(3, 3 + w) == decimal(width)
            &&& h[3 + w] == 0x20
            &&& h.subrange(4 + w, n - 5) == decimal(height)
            &&& h[n - 5] == 0x0a && h[n - 4] == 0x32 && h[n - 3] == 0x35 && h[n - 2] == 0x35
            &&& h[n - 1] == 0x0a
        }),
{
    let h = ppm_header(width, height);
    let w = decimal(width).len() as int;
    let n = h.len() as int;
    assert(h.subrange(3, 3 + w) =~= decimal(width));
    assert(h.subrange(4 + w, n - 5) =~= decimal(height));
}

/// Pixel `x` of row `y` of the window is `0x00RRGGBB`, of the pixel's red, green and blue bytes,
/// which come in the other order.
pub proof fn law_every_pixel_is_in_the_window(
    pixels: Seq<u8>,
    width: nat,
    height: nat,
    stride: nat,
    x: int,
    y: int,
)
    ensures
        packed_rows(pixels, width, stride, height).len() == width * height,
        0 <= x < width && 0 <= y < height ==> packed_rows(pixels, width, stride, height)[y * width
            + x] as int == byte_or_zero(pixels, y * stride + 4 * x + 2) * 0x1_0000 + byte_or_zero(
            pixels,
            y * stride + 4 * x + 1,
        ) * 0x100 + byte_or_zero(pixels, y * stride + 4 * x),
    decreases height,
{
    if height == 0 {
        assert(width * 0 == 0) by (nonlinear_arith);
    } else {
        law_every_pixel_is_in_the_window(pixels, width, (height - 1) as nat, stride, x, y);
        assert((height - 1) * width + width == height * width) by (nonlinear_arith);
        assert(width * (height - 1) == (height - 1) * width) by (nonlinear_arith);
        assert(width * height == height * width) by (nonlinear_arith);
        if 0 <= x < width && 0 <= y < height {
            assert(0 <= y * stride) by (nonlinear_arith)
                requires
                    0 <= y,
                    0 <= stride,
            ;
            assert(0 <= y * width) by (nonlinear_arith)
                requires
                    0 <= y,
                    0 <= width,
            ;
            if y < height - 1 {
                assert(y * width + width <= (height - 1) * width) by (nonlinear_arith)
                    requires
                        y + 1 <= height - 1,
                        0 <= width,
                ;
            }
        }
    }
}

} // verus!
