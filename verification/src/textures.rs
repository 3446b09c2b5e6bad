use vstd::prelude::*;
use std::collections::HashMap;
use crate::caster::TEXTURE_SIZE;
use crate::color::Color;
use crate::sprites::SpriteType;

verus! {

broadcast use vstd::std_specs::hash::group_hash_axioms;

/// The color of texel `(x, y)` in an image of `width` by `height` texels
/// whose `bytes` hold four channels per texel, row by row. A texel that
/// the image does not hold is reported in magenta.
pub open spec fn texel(width: int, height: int, bytes: Seq<u8>, x: int, y: int) -> Color {
    if 0 <= x < width && 0 <= y < height {
        let at = (y * width + x) * 4;
        Color::rgba(bytes[at], bytes[at + 1], bytes[at + 2], bytes[at + 3])
    } else {
        Color::magenta()
    }
}

/// The texel nearest to `(x, y)` among those that the image holds.
pub open spec fn clamped_texel(width: int, height: int, bytes: Seq<u8>, x: int, y: int) -> Color {
    let cx = if x < width {
        x
    } else if width > 0 {
        width - 1
    } else {
        0
    };
    let cy = if y < height {
        y
    } else if height > 0 {
        height - 1
    } else {
        0
    };
    texel(width, height, bytes, cx, cy)
}

/// An image in memory: four bytes per texel, red, green, blue and alpha,
/// stored row by row.
pub struct Image {
    width: u32,
    height: u32,
    data: Vec<u8>,
}

impl Image {
    /// There are four bytes for each texel.
    #[verifier::type_invariant]
    pub closed spec fn wf(self) -> bool {
        self.data@.len() == self.width as int * self.height as int * 4
    }

    /// The number of texels in a row.
    pub closed spec fn spec_width(self) -> int {
        self.width as int
    }

    /// The number of rows.
    pub closed spec fn spec_height(self) -> int {
        self.height as int
    }

    /// The channels of all texels, row by row.
    pub closed spec fn bytes(self) -> Seq<u8> {
        self.data@
    }

    /// The color of texel `(x, y)`; magenta outside of the image.
    pub open spec fn color_at(self, x: int, y: int) -> Color {
        texel(self.spec_width(), self.spec_height(), self.bytes(), x, y)
    }

    /// The color of the texel nearest to `(x, y)`.
    pub open spec fn color_near(self, x: int, y: int) -> Color {
        clamped_texel(self.spec_width(), self.spec_height(), self.bytes(), x, y)
    }

    /// The sides of an image fit in 32 bits.
    pub proof fn lemma_sides_bounded(self)
        ensures
            0 <= self.spec_width() <= u32::MAX,
            0 <= self.spec_height() <= u32::MAX,
    {
    }

    /// A request beyond the right edge is answered from that edge, however
    /// far beyond it lies.
    pub proof fn lemma_clamps_beyond_width(self, x1: int, x2: int, y: int)
        requires
            self.spec_width() <= x1,
            self.spec_width() <= x2,
        ensures
            self.color_near(x1, y) == self.color_near(x2, y),
    {
    }

    /// Takes `data` as an image of `width` by `height` texels, if it holds
    /// four bytes for each of them.
    pub fn new(width: u32, height: u32, data: Vec<u8>) -> (image: Option<Image>)
        ensures
            image.is_some() == (data@.len() == width as int * height as int * 4),
            image.is_some() ==> {
                let im = image.unwrap();
                &&& im.spec_width() == width
                &&& im.spec_height() == height
                &&& im.bytes() == data@
                &&& im.wf()
            },
    {
        assert(width as int * height as int <= 0xffff_ffff * 0xffff_ffff) by (nonlinear_arith)
            requires
                0 <= width <= 0xffff_ffff,
                0 <= height <= 0xffff_ffff,
        ;
        let need: u128 = width as u128 * height as u128 * 4;
        if data.len() as u128 != need {
            return None;
        }
        Some(Image { width, height, data })
    }

    /// The number of texels in a row.
    pub fn width(&self) -> (w: u32)
        ensures
            w == self.spec_width(),
    {
        self.width
    }

    /// The number of rows.
    pub fn height(&self) -> (h: u32)
        ensures
            h == self.spec_height(),
    {
        self.height
    }

    /// The color of texel `(x, y)`. Outside of the image the answer is
    /// magenta, which no texture uses: a bad request shows on screen and
    /// stops nothing.
    pub fn get_pixel_color(&self, x: i32, y: i32) -> (color: Color)
        ensures
            color == self.color_at(x as int, y as int),
    {
        if x < 0 || y < 0 {
            return Color::magenta();
        }
        self.fetch(x as u32, y as u32)
    }

    /// The color of the texel nearest to `(tx, ty)`: a request past the
    /// right or the lower edge is answered from that edge.
    pub fn get_clamped_color(&self, tx: u32, ty: u32) -> (color: Color)
        ensures
            color == self.color_near(tx as int, ty as int),
    {
        let x: u32 = if tx < self.width {
            tx
        } else if self.width > 0 {
            self.width - 1
        } else {
            0
        };
        let y: u32 = if ty < self.height {
            ty
        } else if self.height > 0 {
            self.height - 1
        } else {
            0
        };
        self.fetch(x, y)
    }

    fn fetch(&self, x: u32, y: u32) -> (color: Color)
        ensures
            color == self.color_at(x as int, y as int),
    {
        proof {
            use_type_invariant(self);
        }
        if x >= self.width || y >= self.height {
            return Color::magenta();
        }
        let ghost w = self.width as int;
        let ghost h = self.height as int;
        let len = self.data.len();
        proof {
            crate::framebuffer::lemma_index_in_range(w, h, x as int, y as int);
            assert(0 <= y * w) by (nonlinear_arith)
                requires
                    0 <= y,
                    0 <= w,
            ;
            assert(y * w <= 0xffff_ffff * 0xffff_ffff) by (nonlinear_arith)
                requires
                    0 <= y <= 0xffff_ffff,
                    0 <= w <= 0xffff_ffff,
            ;
            assert((y * w + x) * 4 + 3 < len);
        }
        let idx: usize = ((y as u64 * self.width as u64 + x as u64) * 4) as usize;
        Color::new(self.data[idx], self.data[idx + 1], self.data[idx + 2], self.data[idx + 3])
    }
}

proof fn lemma_codes_differ(a: char, b: char)
    requires
        a != b,
    ensures
        a as u32 != b as u32,
{
}

/// The images that walls and sprites are painted from: one for each wall
/// symbol, and a sheet of frames for each kind of sprite.
pub struct TextureManager {
    images: HashMap<u32, Image>,
    animations: HashMap<u32, Sheet>,
}

/// The number under which the sheet for sprites of a kind is kept.
spec fn kind_code(sprite_type: SpriteType) -> u32 {
    match sprite_type {
        SpriteType::creature => 0,
        SpriteType::prize => 1,
    }
}

fn code_of(sprite_type: &SpriteType) -> (code: u32)
    ensures
        code == kind_code(*sprite_type),
{
    match sprite_type {
        SpriteType::creature => 0,
        SpriteType::prize => 1,
    }
}

/// An image that holds the frames of an animation side by side.
struct Sheet {
    image: Image,
    frame_count: usize,
}

impl Sheet {
    #[verifier::type_invariant]
    spec fn wf(self) -> bool {
        self.frame_count > 0
    }

    spec fn parts(self) -> (Image, usize) {
        (self.image, self.frame_count)
    }
}

impl TextureManager {

    /// The image of the walls with symbol `ch`, if there is one.
    pub closed spec fn image_of(self, ch: char) -> Option<Image> {
        if self.images@.contains_key(ch as u32) {
            Some(self.images@[ch as u32])
        } else {
            None
        }
    }

    /// The sheet of frames for sprites of a kind and the number of frames
    /// on it, if there is one.
    pub closed spec fn animation_of(self, sprite_type: SpriteType) -> Option<(Image, usize)> {
        if self.animations@.contains_key(kind_code(sprite_type)) {
            Some(self.animations@[kind_code(sprite_type)].parts())
        } else {
            None
        }
    }

    /// The width of the image of the walls with symbol `ch`; that of a
    /// texture of the usual size where they have no image.
    pub open spec fn wall_width(self, ch: char) -> int {
        match self.image_of(ch) {
            Some(image) => image.spec_width(),
            None => TEXTURE_SIZE as int,
        }
    }

    /// The height of the image of the walls with symbol `ch`; that of a
    /// texture of the usual size where they have no image.
    pub open spec fn wall_height(self, ch: char) -> int {
        match self.image_of(ch) {
            Some(image) => image.spec_height(),
            None => TEXTURE_SIZE as int,
        }
    }

    /// A request beyond the right edge of the image of a wall is answered
    /// from that edge, however far beyond it lies.
    pub proof fn lemma_wall_clamps_beyond_width(self, ch: char, x1: int, x2: int, ty: int)
        requires
            self.wall_width(ch) <= x1,
            self.wall_width(ch) <= x2,
        ensures
            self.wall_color(ch, x1, ty) == self.wall_color(ch, x2, ty),
    {
    }

    /// The color of walls with symbol `ch` at texel `(tx, ty)`: that of the
    /// nearest texel of their image, and white where they have no image.
    pub open spec fn wall_color(self, ch: char, tx: int, ty: int) -> Color {
        match self.image_of(ch) {
            Some(image) => image.color_near(tx, ty),
            None => Color::white(),
        }
    }

    /// The color of sprites of a kind at texel `(tx, ty)` of their sheet:
    /// that of the nearest texel, and white where they have no sheet.
    pub open spec fn sprite_color(self, sprite_type: SpriteType, tx: int, ty: int) -> Color {
        match self.animation_of(sprite_type) {
            Some(sheet) => sheet.0.color_near(tx, ty),
            None => Color::white(),
        }
    }

    /// A request for the texel just beyond the right edge of the image of
    /// a wall is answered with the last texel of that row: coordinates are
    /// cut off at the edge, and do not wrap around.
    pub proof fn lemma_sampling_clamps(self, ch: char, ty: int)
        requires
            self.image_of(ch).is_some(),
        ensures
            self.wall_color(ch, self.image_of(ch).unwrap().spec_width(), ty) == self.wall_color(
                ch,
                self.image_of(ch).unwrap().spec_width() - 1,
                ty,
            ),
    {
    }

    /// A manager without any image.
    pub fn new() -> (tm: TextureManager)
        ensures
            forall|ch: char| tm.image_of(ch).is_none(),
            forall|t: SpriteType| tm.animation_of(t).is_none(),
    {
        TextureManager { images: HashMap::new(), animations: HashMap::new() }
    }

    /// Makes `image` the image of the walls with symbol `ch`.
    pub fn insert_image(&mut self, ch: char, image: Image)
        ensures
            final(self).image_of(ch) == Some(image),
            forall|other: char| other != ch ==> final(self).image_of(other) == old(self).image_of(other),
            forall|t: SpriteType| final(self).animation_of(t) == old(self).animation_of(t),
    {
        self.images.insert(ch as u32, image);
        assert forall|other: char| other != ch implies final(self).image_of(other) == old(
            self,
        ).image_of(other) by {
            lemma_codes_differ(other, ch);
        }
    }

    /// Makes `image` the sheet for sprites of a kind, with `frame_count`
    /// frames side by side. A sheet without frames is refused: the answer
    /// is then false and nothing changes.
    pub fn insert_animation(&mut self, sprite_type: SpriteType, image: Image, frame_count: usize) -> (ok:
        bool)
        ensures
            ok == (frame_count > 0),
            forall|ch: char| final(self).image_of(ch) == old(self).image_of(ch),
            ok ==> final(self).animation_of(sprite_type) == Some((image, frame_count)),
            !ok ==> final(self).animation_of(sprite_type) == old(self).animation_of(sprite_type),
            forall|t: SpriteType|
                t != sprite_type ==> final(self).animation_of(t) == old(self).animation_of(t),
    {
        if frame_count == 0 {
            return false;
        }
        let sheet = Sheet { image, frame_count };
        self.animations.insert(code_of(&sprite_type), sheet);
        true
    }

    fn sheet(&self, sprite_type: &SpriteType) -> (found: Option<&Sheet>)
        ensures
            match found {
                Some(sheet) => self.animation_of(*sprite_type) == Some(sheet.parts()),
                None => self.animation_of(*sprite_type).is_none(),
            },
    {
        self.animations.get(&code_of(sprite_type))
    }

    /// The image of the walls with symbol `ch`.
    pub fn get_texture(&self, ch: char) -> (image: Option<&Image>)
        ensures
            match image {
                Some(im) => self.image_of(ch) == Some(*im),
                None => self.image_of(ch).is_none(),
            },
    {
        self.images.get(&(ch as u32))
    }

    /// The sheet of frames for sprites of a kind.
    pub fn get_sprite_texture(&self, sprite_type: &SpriteType) -> (image: Option<&Image>)
        ensures
            match image {
                Some(im) => self.animation_of(*sprite_type).is_some() && self.animation_of(
                    *sprite_type,
                ).unwrap().0 == *im,
                None => self.animation_of(*sprite_type).is_none(),
            },
    {
        match self.sheet(sprite_type) {
            Some(sheet) => Some(&sheet.image),
            None => None,
        }
    }

    /// The width of the sheet for sprites of a kind, and the number of
    /// frames on it.
    pub fn get_sprite_animation_info(&self, sprite_type: &SpriteType) -> (info: Option<(u32, usize)>)
        ensures
            info == match self.animation_of(*sprite_type) {
                Some(sheet) => Some((sheet.0.spec_width() as u32, sheet.1)),
                None => None,
            },
            info.is_some() ==> info.unwrap().1 > 0,
    {
        match self.sheet(sprite_type) {
            Some(sheet) => {
                proof {
                    use_type_invariant(sheet);
                }
                Some((sheet.image.width(), sheet.frame_count))
            },
            None => None,
        }
    }

    /// The size of the sheet for sprites of a kind, width and then height,
    /// and the number of frames on it.
    pub fn get_sprite_sheet_info(&self, sprite_type: &SpriteType) -> (info: Option<(u32, u32, usize)>)
        ensures
            info == match self.animation_of(*sprite_type) {
                Some(sheet) => Some(
                    (sheet.0.spec_width() as u32, sheet.0.spec_height() as u32, sheet.1),
                ),
                None => None,
            },
            info.is_some() ==> info.unwrap().2 > 0,
    {
        match self.sheet(sprite_type) {
            Some(sheet) => {
                proof {
                    use_type_invariant(sheet);
                }
                Some((sheet.image.width(), sheet.image.height(), sheet.frame_count))
            },
            None => None,
        }
    }

    /// The color of sprites of a kind at texel `(tx, ty)` of their sheet.
    pub fn get_sprite_pixel_color(&self, sprite_type: &SpriteType, tx: u32, ty: u32) -> (color: Color)
        ensures
            color == self.sprite_color(*sprite_type, tx as int, ty as int),
    {
        match self.sheet(sprite_type) {
            Some(sheet) => sheet.image.get_clamped_color(tx, ty),
            None => Color::white(),
        }
    }

    /// The width and the height of the image of the walls with symbol
    /// `ch`; those of a texture of the usual size where they have no image.
    pub fn get_texture_size(&self, ch: char) -> (size: (u32, u32))
        ensures
            size.0 == self.wall_width(ch),
            size.1 == self.wall_height(ch),
    {
        match self.images.get(&(ch as u32)) {
            Some(image) => (image.width(), image.height()),
            None => (TEXTURE_SIZE, TEXTURE_SIZE),
        }
    }

    /// The color of walls with symbol `ch` at texel `(tx, ty)`.
    pub fn get_pixel_color(&self, ch: char, tx: u32, ty: u32) -> (color: Color)
        ensures
            color == self.wall_color(ch, tx as int, ty as int),
    {
        match self.images.get(&(ch as u32)) {
            Some(image) => image.get_clamped_color(tx, ty),
            None => Color::white(),
        }
    }
}

} // verus!
