use crate::decimal::push_decimal;
use crate::ppm::{
    is_ppm_of, lemma_next_line, lemma_no_ppm, lemma_pixel_lines_push, lemma_subrange_join,
    ppm_header, ppm_text, parse_ppm_header, parse_pixel, pixel_line, pixel_lines, starts_with_line,
};
use vstd::arithmetic::div_mod::lemma_fundamental_div_mod;
use vstd::prelude::*;

verus! {

/// An RGB image of the `image` crate, eight bits per channel. Verus sees
/// it through `image_pixels` and `image_size` alone.
#[verifier::external_body]
pub struct Image {
    buf: image::RgbImage,
}

/// The pixels of an RGB image, row by row, each as its three channels.
pub uninterp spec fn image_pixels(img: Image) -> Seq<(u8, u8, u8)>;

/// The width and height of an RGB image.
pub uninterp spec fn image_size(img: Image) -> (u32, u32);

/// An 8-bit RGB color.
#[derive(Clone, Copy, Debug, PartialEq, Eq, Structural)]
pub struct Color {
    pub r: u8,
    pub g: u8,
    pub b: u8,
}

impl Color {
    pub open spec fn rgb(self) -> (u8, u8, u8) {
        (self.r, self.g, self.b)
    }

    pub fn new(r: u8, g: u8, b: u8) -> (c: Color)
        ensures
            c.rgb() == (r, g, b),
    {
        Color { r, g, b }
    }

    pub fn black() -> (c: Color)
        ensures
            c.rgb() == (0u8, 0u8, 0u8),
    {
        Color { r: 0, g: 0, b: 0 }
    }
}

/// Relies on `ImageBuffer::from_pixel`: an image of the given size whose
/// every pixel is `color`. Its buffer holds three bytes per pixel in one
/// `Vec`, which panics beyond `isize::MAX` bytes.
#[verifier::external_body]
fn image_filled(width: u32, height: u32, color: Color) -> (img: Image)
    requires
        3 * (width as nat) * (height as nat) <= isize::MAX,
    ensures
        image_size(img) == (width, height),
        image_pixels(img) == Seq::new((width as nat) * (height as nat), |i: int| color.rgb()),
{
    Image { buf: image::RgbImage::from_pixel(width, height, image::Rgb([color.r, color.g, color.b])) }
}

/// Relies on `ImageBuffer::put_pixel`: it replaces the pixel at column `x`,
/// row `y`, and panics outside the image.
#[verifier::external_body]
fn image_put(img: &mut Image, x: u32, y: u32, color: Color)
    requires
        x < image_size(*old(img)).0,
        y < image_size(*old(img)).1,
    ensures
        image_size(*final(img)) == image_size(*old(img)),
        image_pixels(*final(img)) == image_pixels(*old(img)).update(
            y * image_size(*old(img)).0 + x,
            color.rgb(),
        ),
    no_unwind
{
    img.buf.put_pixel(x, y, image::Rgb([color.r, color.g, color.b]));
}

/// Relies on `ImageBuffer::get_pixel`: the pixel at column `x`, row `y`; it
/// panics outside the image.
#[verifier::external_body]
fn image_get(img: &Image, x: u32, y: u32) -> (c: Color)
    requires
        x < image_size(*img).0,
        y < image_size(*img).1,
    ensures
        c.rgb() == image_pixels(*img)[y * image_size(*img).0 + x],
{
    let p = img.buf.get_pixel(x, y);
    Color { r: p.0[0], g: p.0[1], b: p.0[2] }
}

/// The cell at column `x`, row `y` of a grid `w` cells wide lies among
/// its `w * h` cells.
pub proof fn lemma_cell_in_grid(x: int, y: int, w: int, h: int)
    requires
        0 <= x < w,
        0 <= y < h,
    ensures
        0 <= y * w + x < w * h,
{
    assert(0 <= y * w + x < w * h) by (nonlinear_arith)
        requires
            0 <= x < w,
            0 <= y < h,
    ;
}

/// The colors of `s` as channel triples.
pub open spec fn rgb_seq(s: Seq<Color>) -> Seq<(u8, u8, u8)> {
    s.map_values(|c: Color| c.rgb())
}

/// Cell `k` of a grid `w` cells wide, counted row by row, is at column
/// `k % w` of row `k / w`.
pub proof fn lemma_cell_of_index(k: int, w: int, h: int)
    requires
        0 <= k < w * h,
        0 < w,
    ensures
        0 <= k % w < w,
        0 <= k / w < h,
        (k / w) * w + k % w == k,
{
    lemma_fundamental_div_mod(k, w);
    let y = k / w;
    let x = k % w;
    assert(0 <= x < w);
    assert(0 <= y < h) by (nonlinear_arith)
        requires
            k == w * y + x,
            0 <= x < w,
            0 <= k < w * h,
    ;
    assert(y * w == w * y) by (nonlinear_arith);
}

/// A width x height grid of colors, stored row by row, black when made.
pub struct Canvas {
    width: u32,
    height: u32,
    canvas: Image,
}

impl Canvas {
    #[verifier::type_invariant]
    spec fn inv(&self) -> bool {
        &&& image_size(self.canvas) == (self.width, self.height)
        &&& image_pixels(self.canvas).len() == (self.width as nat) * (self.height as nat)
        &&& 3 * (self.width as nat) * (self.height as nat) <= isize::MAX
    }

    pub closed spec fn width_spec(&self) -> nat {
        self.width as nat
    }

    pub closed spec fn height_spec(&self) -> nat {
        self.height as nat
    }

    /// The colors of the grid, row by row.
    pub closed spec fn pixels(&self) -> Seq<(u8, u8, u8)> {
        image_pixels(self.canvas)
    }

    /// An all-black canvas of the given size.
    pub fn new(width: u32, height: u32) -> (c: Canvas)
        requires
            3 * (width as nat) * (height as nat) <= isize::MAX,
        ensures
            c.width_spec() == width,
            c.height_spec() == height,
            c.pixels() == Seq::new((width as nat) * (height as nat), |i: int| (0u8, 0u8, 0u8)),
    {
        let canvas = image_filled(width, height, Color::black());
        Canvas { width, height, canvas }
    }

    pub fn width(&self) -> (w: u32)
        ensures
            w == self.width_spec(),
    {
        self.width
    }

    pub fn height(&self) -> (h: u32)
        ensures
            h == self.height_spec(),
    {
        self.height
    }

    /// Sets the cell at column `x`, row `y`; a cell outside the grid is
    /// ignored.
    pub fn put_pixel(&mut self, x: i32, y: i32, color: Color)
        ensures
            final(self).width_spec() == old(self).width_spec(),
            final(self).height_spec() == old(self).height_spec(),
            final(self).pixels() == if 0 <= x < old(self).width_spec() && 0 <= y
                < old(self).height_spec() {
                old(self).pixels().update(y * old(self).width_spec() + x, color.rgb())
            } else {
                old(self).pixels()
            },
    {
        proof {
            use_type_invariant(&*self);
        }
        if 0 <= x && 0 <= y && (x as u32) < self.width && (y as u32) < self.height {
            proof {
                lemma_cell_in_grid(x as int, y as int, self.width as int, self.height as int);
            }
            image_put(&mut self.canvas, x as u32, y as u32, color);
        }
    }

    /// Sets the cell of the viewport pixel (`x`, `y`), counted from the
    /// middle of the grid with `y` growing upwards: column `w / 2 + x`, row
    /// `h / 2 - 1 - y`. A pixel whose cell is outside the grid is ignored.
    pub fn put_centered(&mut self, x: i32, y: i32, color: Color)
        ensures
            final(self).width_spec() == old(self).width_spec(),
            final(self).height_spec() == old(self).height_spec(),
            ({
                let cx = old(self).width_spec() as int / 2 + x;
                let cy = old(self).height_spec() as int / 2 - 1 - y;
                final(self).pixels() == if 0 <= cx < old(self).width_spec() && 0 <= cy
                    < old(self).height_spec() {
                    old(self).pixels().update(cy * old(self).width_spec() + cx, color.rgb())
                } else {
                    old(self).pixels()
                }
            }),
    {
        proof {
            use_type_invariant(&*self);
        }
        let cx: i64 = (self.width / 2) as i64 + x as i64;
        let cy: i64 = (self.height / 2) as i64 - 1 - y as i64;
        if 0 <= cx && 0 <= cy && cx < self.width as i64 && cy < self.height as i64 {
            proof {
                lemma_cell_in_grid(cx as int, cy as int, self.width as int, self.height as int);
            }
            image_put(&mut self.canvas, cx as u32, cy as u32, color);
        }
    }

    /// The color of the cell at column `x`, row `y`.
    pub fn get_pixel(&self, x: u32, y: u32) -> (c: Color)
        requires
            x < self.width_spec(),
            y < self.height_spec(),
        ensures
            c.rgb() == self.pixels()[y * self.width_spec() + x],
    {
        proof {
            use_type_invariant(self);
        }
        image_get(&self.canvas, x, y)
    }

    /// A canvas of the given size whose cells, row by row, are `colors`.
    pub fn from_colors(width: u32, height: u32, colors: &Vec<Color>) -> (c: Canvas)
        requires
            colors.len() == (width as nat) * (height as nat),
            3 * (width as nat) * (height as nat) <= isize::MAX,
        ensures
            c.width_spec() == width,
            c.height_spec() == height,
            c.pixels() == rgb_seq(colors@),
    {
        let mut img = image_filled(width, height, Color::black());
        let n = colors.len();
        let w = width as usize;
        let mut k: usize = 0;
        while k < n
            invariant
                k <= n,
                n == colors.len(),
                n == (width as nat) * (height as nat),
                w == width,
                image_size(img) == (width, height),
                image_pixels(img).len() == n,
                forall|j: int| 0 <= j < k ==> #[trigger] image_pixels(img)[j] == colors@[j].rgb(),
            decreases n - k,
        {
            proof {
                lemma_cell_of_index(k as int, w as int, height as int);
            }
            let x = k % w;
            let y = k / w;
            image_put(&mut img, x as u32, y as u32, colors[k]);
            k = k + 1;
        }
        proof {
            assert(image_pixels(img) =~= rgb_seq(colors@));
        }
        Canvas { width, height, canvas: img }
    }

    /// The plain-text form: "P3", then "<width> <height>", then "255", each
    /// on a line of its own, then one line "R G B" per cell, row by row.
    pub fn to_ppm(&self) -> (out: Vec<u8>)
        ensures
            out@ == ppm_text(self.width_spec(), self.height_spec(), self.pixels()),
            is_ppm_of(out@, self.width_spec(), self.height_spec(), self.pixels()),
    {
        proof {
            use_type_invariant(self);
        }
        let mut out: Vec<u8> = Vec::new();
        out.push(80);
        out.push(51);
        out.push(10);
        push_decimal(&mut out, self.width);
        out.push(32);
        push_decimal(&mut out, self.height);
        out.push(10);
        out.push(50);
        out.push(53);
        out.push(53);
        out.push(10);
        let ghost px = self.pixels();
        proof {
            assert(out@ =~= ppm_header(self.width as nat, self.height as nat) + pixel_lines(
                px.take(0),
            ));
        }
        let w = self.width as usize;
        proof {
            let a = self.width as nat;
            let b = self.height as nat;
            assert(a * b <= 3 * a * b) by (nonlinear_arith);
        }
        let n = w * (self.height as usize);
        let mut k: usize = 0;
        while k < n
            invariant
                k <= n,
                n == (self.width as nat) * (self.height as nat),
                w == self.width,
                px == self.pixels(),
                image_size(self.canvas) == (self.width, self.height),
                px.len() == n,
                out@ == ppm_header(self.width as nat, self.height as nat) + pixel_lines(
                    px.take(k as int),
                ),
            decreases n - k,
        {
            proof {
                lemma_cell_of_index(k as int, w as int, self.height as int);
            }
            let c = image_get(&self.canvas, (k % w) as u32, (k / w) as u32);
            let ghost before = out@;
            push_decimal(&mut out, c.r as u32);
            out.push(32);
            push_decimal(&mut out, c.g as u32);
            out.push(32);
            push_decimal(&mut out, c.b as u32);
            out.push(10);
            proof {
                assert(out@ =~= before + pixel_line(c.rgb()));
                assert(px.take(k + 1) =~= px.take(k as int).push(px[k as int]));
                lemma_pixel_lines_push(px.take(k as int), px[k as int]);
            }
            k = k + 1;
        }
        proof {
            assert(px.take(n as int) =~= px);
        }
        out
    }

    /// Reads the plain-text form written by `to_ppm`. Gives `None` exactly
    /// when `b` is the form of no canvas.
    pub fn from_ppm(b: &[u8]) -> (r: Option<Canvas>)
        ensures
            match r {
                Some(c) => is_ppm_of(b@, c.width_spec(), c.height_spec(), c.pixels()),
                None => forall|w: nat, h: nat, px: Seq<(u8, u8, u8)>|
                    !#[trigger] is_ppm_of(b@, w, h, px),
            },
    {
        let ghost has = exists|t: (nat, nat, Seq<(u8, u8, u8)>)| is_ppm_of(b@, t.0, t.1, t.2);
        let ghost t = choose|t: (nat, nat, Seq<(u8, u8, u8)>)| is_ppm_of(b@, t.0, t.1, t.2);
        let (w, h, mut pos) = match parse_ppm_header(b) {
            Some(x) => x,
            None => {
                return None;
            },
        };
        let mut colors: Vec<Color> = Vec::new();
        proof {
            assert(pixel_lines(rgb_seq(colors@)) =~= Seq::<u8>::empty());
            assert(b@.subrange(0, pos as int) =~= ppm_header(w as nat, h as nat) + pixel_lines(
                rgb_seq(colors@),
            ));
            if has {
                assert(is_ppm_of(b@, t.0, t.1, t.2));
                assert(t.2.skip(0) =~= t.2);
                assert(t.2.take(0) =~= rgb_seq(colors@));
            }
        }
        while pos < b.len()
            invariant
                pos <= b.len(),
                b@.subrange(0, pos as int) == ppm_header(w as nat, h as nat) + pixel_lines(
                    rgb_seq(colors@),
                ),
                6 * colors.len() <= pos,
                has == exists|t: (nat, nat, Seq<(u8, u8, u8)>)| is_ppm_of(b@, t.0, t.1, t.2),
                has ==> {
                    &&& is_ppm_of(b@, t.0, t.1, t.2)
                    &&& w == t.0
                    &&& h == t.1
                    &&& colors.len() <= t.2.len()
                    &&& rgb_seq(colors@) == t.2.take(colors.len() as int)
                    &&& b@.subrange(pos as int, b.len() as int) == pixel_lines(
                        t.2.skip(colors.len() as int),
                    )
                },
            decreases b.len() - pos,
        {
            let ghost k = colors.len() as int;
            proof {
                if has {
                    lemma_next_line(b@, pos as int, t.2, k);
                }
            }
            let (c, e) = match parse_pixel(b, pos) {
                Some(x) => x,
                None => {
                    proof {
                        if has {
                            assert(starts_with_line(b@, pos as int, t.2[k]));
                        }
                        lemma_no_ppm(b@);
                    }
                    return None;
                },
            };
            proof {
                let bb = b@;
                lemma_subrange_join(bb, 0, pos as int, e as int);
                lemma_pixel_lines_push(rgb_seq(colors@), c.rgb());
                assert(rgb_seq(colors@.push(c)) =~= rgb_seq(colors@).push(c.rgb()));
                if has {
                    assert(starts_with_line(b@, pos as int, t.2[k]));
                    assert(t.2.take(k + 1) =~= t.2.take(k).push(t.2[k]));
                }
            }
            colors.push(c);
            pos = e;
        }
        proof {
            if has {
                lemma_next_line(b@, pos as int, t.2, colors.len() as int);
                assert(t.2.take(colors.len() as int) =~= t.2);
            }
        }
        proof {
            assert((w as nat) * (h as nat) <= 0xFFFF_FFFF_FFFF_FFFF) by (nonlinear_arith)
                requires
                    w <= 0xFFFF_FFFFu32,
                    h <= 0xFFFF_FFFFu32,
            ;
        }
        if (w as u64) * (h as u64) != colors.len() as u64 {
            proof {
                if has {
                    assert(rgb_seq(colors@).len() == colors.len());
                }
                lemma_no_ppm(b@);
            }
            return None;
        }
        proof {
            let n = colors.len() as nat;
            assert(3 * (w as nat) * (h as nat) == 3 * n) by (nonlinear_arith)
                requires
                    n == (w as nat) * (h as nat),
            ;
        }
        if 3 * colors.len() > isize::MAX as usize {
            proof {
                lemma_no_ppm(b@);
            }
            return None;
        }
        let c = Canvas::from_colors(w, h, &colors);
        proof {
            assert(b@.subrange(0, b@.len() as int) =~= b@);
        }
        Some(c)
    }
}

} // verus!
