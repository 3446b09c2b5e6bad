use vstd::prelude::*;
use crate::color::Color;

verus! {

/// The most pixels that a framebuffer may hold.
pub const MAX_PIXELS: usize = 0x2000_0000;

/// The depth of a column in which nothing has been drawn yet.
pub const FAR: u64 = u64::MAX;

/// The place of pixel `(x, y)` in a row-major buffer of the given width.
pub open spec fn pixel_index(width: int, x: int, y: int) -> int {
    y * width + x
}

/// A rectangle of the screen, in pixels.
#[derive(Clone, Copy, Debug, PartialEq, Eq, Structural)]
pub struct Letterbox {
    pub x: u32,
    pub y: u32,
    pub width: u32,
    pub height: u32,
}

/// The largest rectangle with the proportions of a picture of `width` by
/// `height` pixels that fits a screen of `screen_width` by `screen_height`
/// pixels, placed in the middle of the screen. The side that does not
/// fill the screen is rounded down, and so is the margin before it.
pub open spec fn letterbox_of(screen_width: int, screen_height: int, width: int, height: int) -> Letterbox {
    if screen_width * height <= screen_height * width {
        let tall = height * screen_width / width;
        Letterbox {
            x: 0,
            y: ((screen_height - tall) / 2) as u32,
            width: screen_width as u32,
            height: tall as u32,
        }
    } else {
        let wide = width * screen_height / height;
        Letterbox {
            x: ((screen_width - wide) / 2) as u32,
            y: 0,
            width: wide as u32,
            height: screen_height as u32,
        }
    }
}

/// A grid of pixels stored row by row, with one depth for each column.
pub struct Framebuffer {
    width: u32,
    height: u32,
    color_buffer: Vec<Color>,
    depth_buffer: Vec<u64>,
    background_color: Color,
    current_color: Color,
}

impl Framebuffer {
    /// The buffers have the lengths that the sides call for.
    #[verifier::type_invariant]
    pub closed spec fn wf(self) -> bool {
        &&& self.color_buffer@.len() == self.width as int * self.height as int
        &&& self.depth_buffer@.len() == self.width
        &&& self.width as int * self.height as int <= MAX_PIXELS
    }

    /// The number of columns.
    pub closed spec fn spec_width(self) -> int {
        self.width as int
    }

    /// The number of rows.
    pub closed spec fn spec_height(self) -> int {
        self.height as int
    }

    /// The pixels, row by row.
    pub closed spec fn pixels(self) -> Seq<Color> {
        self.color_buffer@
    }

    /// The depth of each column.
    pub closed spec fn depths(self) -> Seq<u64> {
        self.depth_buffer@
    }

    /// The color that `clear` fills the buffer with.
    pub closed spec fn background(self) -> Color {
        self.background_color
    }

    /// The color that `set_pixel` draws with.
    pub closed spec fn current(self) -> Color {
        self.current_color
    }

    /// The buffers have the lengths that the sides call for.
    pub open spec fn shaped(self) -> bool {
        &&& 0 <= self.spec_width()
        &&& 0 <= self.spec_height()
        &&& self.pixels().len() == self.spec_width() * self.spec_height()
        &&& self.depths().len() == self.spec_width()
        &&& self.spec_width() * self.spec_height() <= MAX_PIXELS
    }

    /// `(x, y)` is a pixel of the buffer.
    pub open spec fn holds(self, x: int, y: int) -> bool {
        0 <= x < self.spec_width() && 0 <= y < self.spec_height()
    }

    /// Sides, depths and both drawing colors are those of `other`.
    pub open spec fn same_frame(self, other: Framebuffer) -> bool {
        &&& self.spec_width() == other.spec_width()
        &&& self.spec_height() == other.spec_height()
        &&& self.depths() == other.depths()
        &&& self.background() == other.background()
        &&& self.current() == other.current()
    }

    /// Everything but the pixels and depths is that of `other`.
    pub open spec fn same_setup(self, other: Framebuffer) -> bool {
        &&& self.spec_width() == other.spec_width()
        &&& self.spec_height() == other.spec_height()
        &&& self.background() == other.background()
        &&& self.current() == other.current()
    }

    /// Every exec value of the type is shaped.
    pub proof fn lemma_shaped(self)
        requires
            self.wf(),
        ensures
            self.shaped(),
    {
    }

    /// A buffer of `width` by `height` pixels, all of the background color,
    /// that draws in white and has nothing in front of any column.
    pub fn new(width: u32, height: u32, background_color: Color) -> (fb: Framebuffer)
        requires
            width as int * height as int <= MAX_PIXELS,
        ensures
            fb.shaped(),
            fb.spec_width() == width,
            fb.spec_height() == height,
            fb.pixels() == Seq::new((width as int * height as int) as nat, |k: int| background_color),
            fb.depths() == Seq::new(width as nat, |k: int| FAR),
            fb.background() == background_color,
            fb.current() == Color::white(),
    {
        let count: usize = (width as u64 * height as u64) as usize;
        let mut color_buffer: Vec<Color> = Vec::new();
        let mut k: usize = 0;
        while k < count
            invariant
                k <= count,
                color_buffer@ == Seq::new(k as nat, |n: int| background_color),
            decreases count - k,
        {
            color_buffer.push(background_color);
            k += 1;
            assert(color_buffer@ =~= Seq::new(k as nat, |n: int| background_color));
        }
        let mut depth_buffer: Vec<u64> = Vec::new();
        let mut c: u32 = 0;
        while c < width
            invariant
                c <= width,
                depth_buffer@ == Seq::new(c as nat, |n: int| FAR),
            decreases width - c,
        {
            depth_buffer.push(FAR);
            c += 1;
            assert(depth_buffer@ =~= Seq::new(c as nat, |n: int| FAR));
        }
        Framebuffer {
            width,
            height,
            color_buffer,
            depth_buffer,
            background_color,
            current_color: Color::white(),
        }
    }

    /// The number of columns.
    pub fn width(&self) -> (w: u32)
        ensures
            w == self.spec_width(),
            self.shaped(),
    {
        proof {
            use_type_invariant(self);
        }
        self.width
    }

    /// The number of rows.
    pub fn height(&self) -> (h: u32)
        ensures
            h == self.spec_height(),
            self.shaped(),
    {
        proof {
            use_type_invariant(self);
        }
        self.height
    }

    /// The color that `clear` fills the buffer with.
    pub fn background_color(&self) -> (color: Color)
        ensures
            color == self.background(),
    {
        self.background_color
    }

    /// The color that `set_pixel` draws with.
    pub fn current_color(&self) -> (color: Color)
        ensures
            color == self.current(),
    {
        self.current_color
    }

    /// Where the picture is shown on a screen of `screen_width` by
    /// `screen_height` pixels: as large as it fits, in its own proportions,
    /// in the middle. A buffer without pixels is not shown.
    pub fn letterbox(&self, screen_width: u32, screen_height: u32) -> (place: Option<Letterbox>)
        ensures
            place == if self.spec_width() > 0 && self.spec_height() > 0 {
                Some(
                    letterbox_of(
                        screen_width as int,
                        screen_height as int,
                        self.spec_width(),
                        self.spec_height(),
                    ),
                )
            } else {
                None
            },
            place.is_some() ==> place.unwrap().x + place.unwrap().width <= screen_width
                && place.unwrap().y + place.unwrap().height <= screen_height,
    {
        if self.width == 0 || self.height == 0 {
            return None;
        }
        let sw = screen_width as u64;
        let sh = screen_height as u64;
        let w = self.width as u64;
        let h = self.height as u64;
        proof {
            lemma_product_fits(sw, h);
            lemma_product_fits(sh, w);
            lemma_product_fits(h, sw);
            lemma_product_fits(w, sh);
        }
        if sw * h <= sh * w {
            let tall: u64 = h * sw / w;
            assert(tall <= sh) by (nonlinear_arith)
                requires
                    tall == h * sw / (w as int),
                    sw * h <= sh * w,
                    w > 0,
            ;
            Some(
                Letterbox {
                    x: 0,
                    y: ((sh - tall) / 2) as u32,
                    width: screen_width,
                    height: tall as u32,
                },
            )
        } else {
            let wide: u64 = w * sh / h;
            assert(wide <= sw) by (nonlinear_arith)
                requires
                    wide == w * sh / (h as int),
                    sw * h > sh * w,
                    h > 0,
            ;
            Some(
                Letterbox {
                    x: ((sw - wide) / 2) as u32,
                    y: 0,
                    width: wide as u32,
                    height: screen_height,
                },
            )
        }
    }

    /// Fills the buffer with the background color. The depths stay.
    pub fn clear(&mut self)
        ensures
            final(self).same_frame(*old(self)),
            final(self).pixels() == Seq::new(old(self).pixels().len(), |k: int| old(self).background()),
    {
        proof {
            use_type_invariant(&*self);
        }
        let n = self.color_buffer.len();
        let mut k: usize = 0;
        while k < n
            invariant
                k <= n,
                n == self.color_buffer@.len(),
                self.width == old(self).width,
                self.height == old(self).height,
                self.depth_buffer == old(self).depth_buffer,
                self.background_color == old(self).background_color,
                self.current_color == old(self).current_color,
                self.color_buffer@.len() == old(self).color_buffer@.len(),
                self.wf(),
                forall|m: int| 0 <= m < k ==> self.color_buffer@[m] == self.background_color,
            decreases n - k,
        {
            self.color_buffer[k] = self.background_color;
            k += 1;
        }
        assert(self.color_buffer@ =~= Seq::new(
            old(self).pixels().len(),
            |k: int| old(self).background(),
        ));
    }

    /// Paints pixel `(x, y)` in the current color, if the buffer holds it.
    pub fn set_pixel(&mut self, x: u32, y: u32)
        ensures
            final(self).same_frame(*old(self)),
            final(self).pixels() == if old(self).holds(x as int, y as int) {
                old(self).pixels().update(
                    pixel_index(old(self).spec_width(), x as int, y as int),
                    old(self).current(),
                )
            } else {
                old(self).pixels()
            },
    {
        let color = self.current_color;
        self.set_pixel_color(x, y, color);
    }

    /// Paints pixel `(x, y)` in `color`, if the buffer holds it.
    pub fn set_pixel_color(&mut self, x: u32, y: u32, color: Color)
        ensures
            final(self).same_frame(*old(self)),
            final(self).pixels() == if old(self).holds(x as int, y as int) {
                old(self).pixels().update(
                    pixel_index(old(self).spec_width(), x as int, y as int),
                    color,
                )
            } else {
                old(self).pixels()
            },
    {
        proof {
            use_type_invariant(&*self);
        }
        if x < self.width && y < self.height {
            proof {
                lemma_index_in_range(self.width as int, self.height as int, x as int, y as int);
            }
            let idx: usize = (y as u64 * self.width as u64 + x as u64) as usize;
            self.color_buffer[idx] = color;
        }
    }

    /// Makes `color` the color that `clear` fills the buffer with.
    pub fn set_background_color(&mut self, color: Color)
        ensures
            final(self).spec_width() == old(self).spec_width(),
            final(self).spec_height() == old(self).spec_height(),
            final(self).pixels() == old(self).pixels(),
            final(self).depths() == old(self).depths(),
            final(self).current() == old(self).current(),
            final(self).background() == color,
    {
        proof {
            use_type_invariant(&*self);
        }
        self.background_color = color;
    }

    /// Makes `color` the color that `set_pixel` draws with.
    pub fn set_current_color(&mut self, color: Color)
        ensures
            final(self).spec_width() == old(self).spec_width(),
            final(self).spec_height() == old(self).spec_height(),
            final(self).pixels() == old(self).pixels(),
            final(self).depths() == old(self).depths(),
            final(self).background() == old(self).background(),
            final(self).current() == color,
    {
        proof {
            use_type_invariant(&*self);
        }
        self.current_color = color;
    }

    /// The color of pixel `(x, y)`; black where the buffer holds no such
    /// pixel.
    pub fn get_color(&self, x: u32, y: u32) -> (color: Color)
        ensures
            color == if self.holds(x as int, y as int) {
                self.pixels()[pixel_index(self.spec_width(), x as int, y as int)]
            } else {
                Color::black()
            },
    {
        proof {
            use_type_invariant(self);
        }
        if x < self.width && y < self.height {
            proof {
                lemma_index_in_range(self.width as int, self.height as int, x as int, y as int);
            }
            let idx: usize = (y as u64 * self.width as u64 + x as u64) as usize;
            self.color_buffer[idx]
        } else {
            Color::black()
        }
    }

    /// The depth recorded for column `x`; [`FAR`] where there is no such
    /// column.
    pub fn depth(&self, x: u32) -> (d: u64)
        ensures
            d == if x < self.spec_width() {
                self.depths()[x as int]
            } else {
                FAR
            },
    {
        proof {
            use_type_invariant(self);
        }
        if x < self.width {
            self.depth_buffer[x as usize]
        } else {
            FAR
        }
    }

    /// Records `d` as the depth of column `x`, if there is such a column.
    pub fn set_depth(&mut self, x: u32, d: u64)
        ensures
            final(self).same_setup(*old(self)),
            final(self).pixels() == old(self).pixels(),
            final(self).depths() == if x < old(self).spec_width() {
                old(self).depths().update(x as int, d)
            } else {
                old(self).depths()
            },
    {
        proof {
            use_type_invariant(&*self);
        }
        if x < self.width {
            self.depth_buffer[x as usize] = d;
        }
    }

    /// Paints the rows above the middle of the screen in `sky` and the rows
    /// from the middle on in `floor`.
    pub fn fill_horizon(&mut self, sky: Color, floor: Color)
        ensures
            final(self).same_frame(*old(self)),
            final(self).pixels() == Seq::new(
                old(self).pixels().len(),
                |k: int|
                    if k < (old(self).spec_height() / 2) * old(self).spec_width() {
                        sky
                    } else {
                        floor
                    },
            ),
    {
        proof {
            use_type_invariant(&*self);
        }
        let n = self.color_buffer.len();
        let half_rows: u64 = (self.height / 2) as u64;
        assert(half_rows * self.width as int <= self.width as int * self.height as int)
            by (nonlinear_arith)
            requires
                0 <= half_rows <= self.height,
                0 <= self.width,
        ;
        let half: usize = (half_rows * self.width as u64) as usize;
        let mut k: usize = 0;
        while k < n
            invariant
                k <= n,
                n == self.color_buffer@.len(),
                self.width == old(self).width,
                self.height == old(self).height,
                self.depth_buffer == old(self).depth_buffer,
                self.background_color == old(self).background_color,
                self.current_color == old(self).current_color,
                self.color_buffer@.len() == old(self).color_buffer@.len(),
                self.wf(),
                forall|m: int|
                    0 <= m < k ==> self.color_buffer@[m] == if m < half {
                        sky
                    } else {
                        floor
                    },
            decreases n - k,
        {
            self.color_buffer[k] = if k < half {
                sky
            } else {
                floor
            };
            k += 1;
        }
        assert(self.color_buffer@ =~= Seq::new(
            old(self).pixels().len(),
            |k: int|
                if k < (old(self).spec_height() / 2) * old(self).spec_width() {
                    sky
                } else {
                    floor
                },
        ));
    }
}

/// A pixel inside of the sides lies inside of the buffer.
pub proof fn lemma_index_in_range(width: int, height: int, x: int, y: int)
    requires
        0 <= x < width,
        0 <= y < height,
    ensures
        0 <= pixel_index(width, x, y) < width * height,
        pixel_index(width, x, y) / width == y,
        pixel_index(width, x, y) % width == x,
{
    assert(0 <= y * width) by (nonlinear_arith)
        requires
            0 <= y,
            0 <= width,
    ;
    assert(y * width + width <= height * width) by (nonlinear_arith)
        requires
            y + 1 <= height,
            0 <= width,
    ;
    assert(height * width == width * height) by (nonlinear_arith);
    assert(y * width == width * y) by (nonlinear_arith);
    vstd::arithmetic::div_mod::lemma_fundamental_div_mod_converse(y * width + x, width, y, x);
}

proof fn lemma_product_fits(a: u64, b: u64)
    requires
        a <= 0xffff_ffff,
        b <= 0xffff_ffff,
    ensures
        a * b <= 0xffff_ffff * 0xffff_ffff,
{
    assert(a * b <= 0xffff_ffff * 0xffff_ffff) by (nonlinear_arith)
        requires
            0 <= a <= 0xffff_ffff,
            0 <= b <= 0xffff_ffff,
    ;
}

} // verus!
