use vstd::prelude::*;
use crate::caster::{cast_ray, intersection, ray_at, Intersect, TEXTURE_SIZE};
use crate::color::Color;
use crate::framebuffer::{lemma_index_in_range, pixel_index, Framebuffer};
use crate::maze::Maze;
use crate::player::Player;
use crate::state::GameState;
use crate::textures::TextureManager;
use crate::trig::{TrigTable, ONE};

verus! {

/// A wall at depth `d` is drawn `PROJECTION_SCALE / d` times as high as
/// half of the screen: as high as that at a depth of 100 world units. Like
/// every depth, the scale is in fixed point.
pub const PROJECTION_SCALE: u64 = 100 * 0x1_0000;

/// The smallest depth that a column can have.
pub const MIN_DEPTH: u64 = 1;

/// The distance of a wall from the plane of the screen, in fixed point:
/// the distance `raw` along a ray, scaled by the cosine of the angle
/// between the ray and the direction of view, and never less than
/// [`MIN_DEPTH`].
pub open spec fn corrected_depth(raw: int, cos: int) -> int {
    let d = raw * cos / (ONE as int);
    if d < MIN_DEPTH as int {
        MIN_DEPTH as int
    } else {
        d
    }
}

/// The first screen row of a wall strip at depth `d` on a screen of
/// `height` rows: the strip is centered on the middle of the screen, half
/// of it is `(height / 2) * (PROJECTION_SCALE / 2) / d` rows high, and what
/// would lie above the screen is cut off. Rows are rounded down.
pub open spec fn strip_top(height: int, d: int) -> int {
    if 2 * d <= PROJECTION_SCALE as int {
        0
    } else {
        (2 * height * d - PROJECTION_SCALE as int * height) / (4 * d)
    }
}

/// The screen row after the last one of a wall strip at depth `d`.
pub open spec fn strip_bottom(height: int, d: int) -> int {
    let b = (2 * height * d + PROJECTION_SCALE as int * height) / (4 * d);
    if b > height {
        height
    } else {
        b
    }
}

/// The row of a texture of `height` rows that is shown in row `offset` of
/// a strip that is `span` rows high: the rows of the texture are spread
/// evenly over the strip.
pub open spec fn texel_row(offset: int, span: int, height: int) -> int {
    offset * height / span
}

/// The column of a texture of `width` columns that stands for the texture
/// column `tx` that a ray reports: rays count columns as a texture of
/// [`TEXTURE_SIZE`] columns has them, and a texture of another width is
/// spread evenly over the side of a cell.
pub open spec fn texel_column(tx: int, width: int) -> int {
    tx * width / (TEXTURE_SIZE as int)
}

/// The color of a wall with symbol `impact` in row `offset` of a strip that
/// is `span` rows high, where the ray has met the wall at texture column
/// `tx`.
pub open spec fn wall_texel(textures: TextureManager, impact: char, tx: int, offset: int, span: int) -> Color {
    textures.wall_color(
        impact,
        texel_column(tx, textures.wall_width(impact)),
        texel_row(offset, span, textures.wall_height(impact)),
    )
}

/// The pixels after rows `top` to `upto` of column `x` have been painted
/// with column `tx` of the texture of `impact`, as the upper part of a
/// strip that ends before row `bottom`.
pub open spec fn strip_rows(
    before: Seq<Color>,
    width: int,
    textures: TextureManager,
    x: int,
    top: int,
    bottom: int,
    upto: int,
    impact: char,
    tx: int,
) -> Seq<Color> {
    Seq::new(
        before.len(),
        |k: int|
            if k % width == x && top <= k / width < upto {
                wall_texel(textures, impact, tx, k / width - top, bottom - top)
            } else {
                before[k]
            },
    )
}

/// What a frame of walls is drawn from.
pub struct Scene {
    pub grid: Seq<Seq<char>>,
    pub player: Player,
    pub block_size: u32,
    pub trig: TrigTable,
    pub textures: TextureManager,
    pub width: int,
    pub height: int,
}

impl Scene {
    /// The angle between the direction of view and the ray of column `x`:
    /// the columns divide the field of view evenly, from half of it to the
    /// left of the direction of view.
    pub open spec fn turn(self, x: int) -> int {
        x * self.player.fov as int / self.width - self.player.fov as int / 2
    }

    /// Where the ray of column `x` meets a wall.
    pub open spec fn hit(self, x: int) -> Intersect {
        intersection(
            self.grid,
            ray_at(self.player, self.block_size, self.trig, self.player.a + self.turn(x)),
        )
    }

    /// The depth of column `x`.
    pub open spec fn depth(self, x: int) -> int {
        corrected_depth(self.hit(x).distance as int, self.trig.cos_of(self.turn(x)))
    }

    /// The color of pixel `(x, y)` once the walls are drawn over a pixel
    /// of color `before`.
    pub open spec fn wall_pixel(self, x: int, y: int, before: Color) -> Color {
        let top = strip_top(self.height, self.depth(x));
        let bottom = strip_bottom(self.height, self.depth(x));
        if top <= y < bottom {
            wall_texel(
                self.textures,
                self.hit(x).impact,
                self.hit(x).tx as int,
                y - top,
                bottom - top,
            )
        } else {
            before
        }
    }

    /// The pixels once the walls of the first `columns` columns are drawn
    /// over the pixels `before`.
    pub open spec fn walls_upto(self, before: Seq<Color>, columns: int) -> Seq<Color> {
        Seq::new(
            before.len(),
            |k: int|
                if k % self.width < columns {
                    self.wall_pixel(k % self.width, k / self.width, before[k])
                } else {
                    before[k]
                },
        )
    }

    /// The pixels once all walls are drawn over the pixels `before`.
    pub open spec fn walls(self, before: Seq<Color>) -> Seq<Color> {
        self.walls_upto(before, self.width)
    }

    /// The depths once the first `columns` columns are drawn.
    pub open spec fn depths_upto(self, before: Seq<u64>, columns: int) -> Seq<u64> {
        Seq::new(
            before.len(),
            |x: int|
                if x < columns {
                    self.depth(x) as u64
                } else {
                    before[x]
                },
        )
    }
}

/// How far from the middle of the screen pixel `(x, y)` lies, as a share
/// of the reach of the flashlight: the pixel is `sqrt(25 * n / (4 * d))`
/// times as far out as the light reaches, where `n` is this number and `d`
/// is [`spot_scale`]. The light reaches a fifth of the width to either
/// side and a fifth of the height up and down.
pub open spec fn spot_reach(width: int, height: int, x: int, y: int) -> int {
    let ax = if 2 * x >= width {
        2 * x - width
    } else {
        width - 2 * x
    };
    let ay = if 2 * y >= height {
        2 * y - height
    } else {
        height - 2 * y
    };
    (ax * height) * (ax * height) + (ay * width) * (ay * width)
}

/// The number that [`spot_reach`] is measured against: the square of the
/// number of pixels.
pub open spec fn spot_scale(width: int, height: int) -> int {
    (width * height) * (width * height)
}

/// The color that the flashlight leaves of `c` at pixel `(x, y)`: black
/// beyond its reach, darkened linearly over the outer part of the lit
/// disc, where the square of the distance from the middle rises from 0.7
/// to 1 of the reach, and unchanged further in.
pub open spec fn spot_pixel(width: int, height: int, x: int, y: int, c: Color) -> Color {
    let n = spot_reach(width, height, x, y);
    let d = spot_scale(width, height);
    if 25 * n > 4 * d {
        Color::black()
    } else if 125 * n > 14 * d {
        c.spec_faded((5 * (4 * d - 25 * n)) as u64, (6 * d) as u64)
    } else {
        c
    }
}

/// The pixels `before` under the flashlight.
pub open spec fn spotlit(before: Seq<Color>, width: int, height: int) -> Seq<Color> {
    Seq::new(before.len(), |k: int| spot_pixel(width, height, k % width, k / width, before[k]))
}

/// Strips are no higher for walls that are further away.
pub proof fn lemma_strip_shrinks_with_depth(height: int, near: int, far: int)
    requires
        0 <= height,
        1 <= near <= far,
    ensures
        strip_top(height, near) <= strip_top(height, far),
        strip_bottom(height, far) <= strip_bottom(height, near),
        strip_bottom(height, far) - strip_top(height, far) <= strip_bottom(height, near)
            - strip_top(height, near),
{
    let s = PROJECTION_SCALE as int;
    if 2 * far > s {
        if 2 * near > s {
            let tn = (2 * height * near - s * height) / (4 * near);
            let tf = (2 * height * far - s * height) / (4 * far);
            assert(tn <= tf) by (nonlinear_arith)
                requires
                    tn == (2 * height * near - s * height) / (4 * near),
                    tf == (2 * height * far - s * height) / (4 * far),
                    1 <= near <= far,
                    0 <= height,
                    2 * near > s,
                    s >= 0,
            {
                let a = 2 * height * near - s * height;
                let b = 2 * height * far - s * height;
                // a / (4 near) <= b / (4 far)  since a * far <= b * near
                assert(a * far <= b * near);
                assert(a >= 0 && b >= 0);
                assert(4 * near * (a / (4 * near)) <= a);
                assert(b < 4 * far * (b / (4 * far) + 1));
            }
        } else {
            assert((2 * height * far - s * height) / (4 * far) >= 0) by (nonlinear_arith)
                requires
                    2 * far > s,
                    height >= 0,
                    far >= 1,
            ;
        }
    }
    let bn = (2 * height * near + s * height) / (4 * near);
    let bf = (2 * height * far + s * height) / (4 * far);
    assert(bf <= bn) by (nonlinear_arith)
        requires
            bn == (2 * height * near + s * height) / (4 * near),
            bf == (2 * height * far + s * height) / (4 * far),
            1 <= near <= far,
            0 <= height,
            s >= 0,
    {
        let a = 2 * height * near + s * height;
        let b = 2 * height * far + s * height;
        assert(b * near <= a * far);
        assert(4 * far * (b / (4 * far)) <= b);
        assert(a < 4 * near * (a / (4 * near) + 1));
    }
}

/// Scaling by the cosine undoes the slant of a ray. A wall that faces the
/// viewer squarely, `reach` world units ahead, is met by a ray of cosine
/// `cos` at the distance `reach / cos`; its depth is `reach` again, but for
/// less than one unit of fixed point that rounding takes away. So all
/// columns of such a wall have the same depth, whatever their angle.
pub proof fn lemma_correction_undoes_slant(reach: int, cos: int)
    requires
        reach >= 1,
        0 < cos <= ONE,
    ensures
        reach * ONE as int - 1 <= corrected_depth(reach * 0x1_0000_0000 / cos, cos) <= reach
            * ONE as int,
{
    let way = reach * 0x1_0000_0000;
    let raw = way / cos;
    vstd::arithmetic::div_mod::lemma_fundamental_div_mod(way, cos);
    assert(raw * cos == cos * raw) by (nonlinear_arith);
    let back = raw * cos;
    assert(way - 0x1_0000 < back <= way);
    vstd::arithmetic::div_mod::lemma_fundamental_div_mod(back, 0x1_0000);
    assert(back / 0x1_0000 <= reach * 0x1_0000);
    assert(back / 0x1_0000 >= reach * 0x1_0000 - 1);
}

/// From one depth to the next, neither edge of a strip moves by more than
/// a row, unless the wall is so near that its strip changes by more than
/// a row with every unit of fixed point.
pub proof fn lemma_strip_edges_move_slowly(height: int, d: int)
    requires
        0 <= height,
        d >= 2,
        PROJECTION_SCALE as int * height <= 4 * (d * (d - 1)),
    ensures
        strip_top(height, d) - 1 <= strip_top(height, d - 1) <= strip_top(height, d),
        strip_bottom(height, d) <= strip_bottom(height, d - 1) <= strip_bottom(height, d) + 1,
{
    lemma_strip_shrinks_with_depth(height, d - 1, d);
    let s = PROJECTION_SCALE as int;
    let e = d - 1;
    assert((2 * height) * d == 2 * (height * d) && (2 * height) * e == 2 * (height * d) - 2
        * height) by (nonlinear_arith)
        requires
            e == d - 1,
    ;
    // upper edge
    if 2 * d > s {
        let a = 2 * (height * d) - s * height;
        let q1 = a / (4 * d);
        assert(a >= 0) by (nonlinear_arith)
            requires
                a == 2 * (height * d) - s * height,
                2 * d > s,
                height >= 0,
        ;
        if 2 * e > s {
            let q0 = (a - 2 * height) / (4 * e);
            assert(q0 >= q1 - 1) by (nonlinear_arith)
                requires
                    q1 == a / (4 * d),
                    q0 == (a - 2 * height) / (4 * e),
                    a == 2 * (height * d) - s * height,
                    s * height <= 4 * (d * e),
                    e == d - 1,
                    e >= 1,
                    a >= 0,
                    height >= 0,
            {
                assert(4 * d * q1 <= a);
                assert((a - 2 * height) * d == a * e - s * height);
                assert(a * e >= (4 * d * q1) * e);
                assert((a - 2 * height) * d >= 4 * d * e * (q1 - 1));
                assert(a - 2 * height >= 4 * e * (q1 - 1));
                assert(a - 2 * height < 4 * e * (q0 + 1));
            }
        } else {
            assert(q1 <= 1) by (nonlinear_arith)
                requires
                    q1 == a / (4 * d),
                    a == 2 * (height * d) - s * height,
                    s * height <= 4 * (d * e),
                    2 * e <= s,
                    e == d - 1,
                    e >= 1,
                    a >= 0,
                    height >= 0,
            {
                assert(2 * e * height <= s * height);
                assert(a <= 2 * height);
                assert(2 * e * height <= 4 * (d * e));
                assert(height <= 2 * d);
                assert(a < 8 * d);
            }
        }
    }
    // lower edge
    let b = 2 * (height * d) + s * height;
    let p1 = b / (4 * d);
    let p0 = (b - 2 * height) / (4 * e);
    assert(p0 <= p1 + 1) by (nonlinear_arith)
        requires
            p1 == b / (4 * d),
            p0 == (b - 2 * height) / (4 * e),
            b == 2 * (height * d) + s * height,
            s * height <= 4 * (d * e),
            e == d - 1,
            e >= 1,
            height >= 0,
            s >= 0,
    {
        assert(b < 4 * d * (p1 + 1));
        assert(4 * e * p0 <= b - 2 * height);
        assert((b - 2 * height) * d == b * e + s * height);
        assert(b * e < (4 * d * (p1 + 1)) * e);
        assert((b - 2 * height) * d < 4 * d * e * (p1 + 2));
        assert((4 * e * p0) * d <= (b - 2 * height) * d);
        assert(p0 < p1 + 2);
    }
}

/// A wall that faces the viewer squarely is drawn level: seen under any
/// angle, neither edge of its strip lies more than a row from where it
/// lies straight ahead, and the strip is no lower there. So the strips of
/// such a wall do not bulge, but for the rows that rounding moves.
pub proof fn lemma_flat_wall_is_drawn_level(height: int, reach: int, cos: int)
    requires
        0 <= height,
        reach >= 1,
        0 < cos <= ONE,
        PROJECTION_SCALE as int * height <= 4 * ((reach * ONE as int) * (reach * ONE as int - 1)),
    ensures
        ({
            let ahead = reach * ONE as int;
            let seen = corrected_depth(reach * 0x1_0000_0000 / cos, cos);
            &&& strip_top(height, ahead) - 1 <= strip_top(height, seen) <= strip_top(height, ahead)
            &&& strip_bottom(height, ahead) <= strip_bottom(height, seen) <= strip_bottom(
                height,
                ahead,
            ) + 1
        }),
{
    lemma_correction_undoes_slant(reach, cos);
    let ahead = reach * ONE as int;
    let seen = corrected_depth(reach * 0x1_0000_0000 / cos, cos);
    if seen != ahead {
        assert(seen == ahead - 1);
        lemma_strip_edges_move_slowly(height, ahead);
    }
}

/// The depth of a wall that lies `raw` along a ray whose angle to the
/// direction of view has cosine `cos`.
pub fn correct_distance(raw: u64, cos: i32) -> (d: u64)
    requires
        -ONE <= cos <= ONE,
    ensures
        d == corrected_depth(raw as int, cos as int),
        d >= MIN_DEPTH,
{
    if cos <= 0 {
        assert(raw as int * cos as int / (ONE as int) <= 0) by (nonlinear_arith)
            requires
                raw >= 0,
                cos <= 0,
                ONE == 0x1_0000,
        ;
        return MIN_DEPTH;
    }
    assert(raw as int * cos as int <= 0xffff_ffff_ffff_ffff * 0x1_0000) by (nonlinear_arith)
        requires
            0 <= raw <= 0xffff_ffff_ffff_ffff,
            0 < cos <= 0x1_0000,
    ;
    assert(raw as int * cos as int / 0x1_0000 <= raw) by (nonlinear_arith)
        requires
            0 <= raw,
            0 < cos <= 0x1_0000,
    ;
    let scaled: u128 = raw as u128 * cos as u128 / (ONE as u128);
    if scaled < MIN_DEPTH as u128 {
        MIN_DEPTH
    } else {
        scaled as u64
    }
}

/// The rows of the strip for a wall at depth `d` on a screen of `height`
/// rows: the first one, and the one after the last.
pub fn strip_bounds(height: u32, d: u64) -> (rows: (u32, u32))
    requires
        d >= MIN_DEPTH,
    ensures
        rows.0 == strip_top(height as int, d as int),
        rows.1 == strip_bottom(height as int, d as int),
        rows.0 <= rows.1 <= height,
{
    let h: u128 = height as u128;
    let dd: u128 = d as u128;
    let s: u128 = PROJECTION_SCALE as u128;
    assert(h * dd <= 0xffff_ffff * 0xffff_ffff_ffff_ffff) by (nonlinear_arith)
        requires
            0 <= h <= 0xffff_ffff,
            0 <= dd <= 0xffff_ffff_ffff_ffff,
    ;
    let centre: u128 = 2 * (h * dd);
    let spread: u128 = s * h;
    let ghost below = (centre + spread) as int / (4 * dd) as int;
    let ghost above = (centre - spread) as int / (4 * dd) as int;
    proof {
        assert(h * dd == height as int * d as int);
        assert(below >= above) by (nonlinear_arith)
            requires
                below == (centre + spread) as int / (4 * dd) as int,
                above == (centre - spread) as int / (4 * dd) as int,
                spread >= 0,
                dd >= 1,
        ;
        assert(above <= h) by (nonlinear_arith)
            requires
                above == (centre - spread) as int / (4 * dd) as int,
                centre == 2 * (h * dd),
                spread >= 0,
                h >= 0,
                dd >= 1,
        ;
        assert(2 * dd > s ==> above >= 0) by (nonlinear_arith)
            requires
                above == (centre - spread) as int / (4 * dd) as int,
                centre == 2 * (h * dd),
                spread == s * h,
                h >= 0,
                dd >= 1,
                s >= 0,
        ;
        assert(below >= 0) by (nonlinear_arith)
            requires
                below == (centre + spread) as int / (4 * dd) as int,
                centre >= 0,
                spread >= 0,
                dd >= 1,
        ;
    }
    assert(s == 6_553_600);
    assert(2 * dd > s ==> centre >= spread) by (nonlinear_arith)
        requires
            centre == 2 * (h * dd),
            spread == s * h,
            h >= 0,
    ;
    assert((2 * height) * d == 2 * (height * d)) by (nonlinear_arith);
    let top: u32 = if 2 * dd <= s {
        0
    } else {
        ((centre - spread) / (4 * dd)) as u32
    };
    let low: u128 = (centre + spread) / (4 * dd);
    let bottom: u32 = if low > h {
        height
    } else {
        low as u32
    };
    (top, bottom)
}

/// Paints rows `top` to `bottom` of column `x` with the texture of
/// `impact`, spread evenly over the strip: all of its rows, of the column
/// that the texture column `tx` of a ray stands for.
pub fn draw_strip(
    framebuffer: &mut Framebuffer,
    textures: &TextureManager,
    x: u32,
    top: u32,
    bottom: u32,
    impact: char,
    tx: u32,
)
    requires
        x < old(framebuffer).spec_width(),
        top <= bottom <= old(framebuffer).spec_height(),
    ensures
        final(framebuffer).same_frame(*old(framebuffer)),
        final(framebuffer).pixels() == strip_rows(
            old(framebuffer).pixels(),
            old(framebuffer).spec_width(),
            *textures,
            x as int,
            top as int,
            bottom as int,
            bottom as int,
            impact,
            tx as int,
        ),
{
    let width = framebuffer.width();
    let ghost w = width as int;
    let ghost before = framebuffer.pixels();
    let span: u64 = (bottom - top) as u64;
    let (texture_width, texture_height) = textures.get_texture_size(impact);
    assert(tx as int * texture_width as int <= 0xffff_ffff * 0xffff_ffff) by (nonlinear_arith)
        requires
            0 <= tx <= 0xffff_ffff,
            0 <= texture_width <= 0xffff_ffff,
    ;
    let wide_column: u64 = tx as u64 * texture_width as u64 / (TEXTURE_SIZE as u64);
    let column: u32 = if wide_column > u32::MAX as u64 {
        u32::MAX
    } else {
        wide_column as u32
    };
    let mut y: u32 = top;
    assert(framebuffer.pixels() =~= strip_rows(
        before,
        w,
        *textures,
        x as int,
        top as int,
        bottom as int,
        top as int,
        impact,
        tx as int,
    ));
    while y < bottom
        invariant
            top <= y <= bottom,
            bottom <= framebuffer.spec_height(),
            x < w,
            w == framebuffer.spec_width(),
            span == bottom - top,
            texture_width == textures.wall_width(impact),
            texture_height == textures.wall_height(impact),
            wide_column == texel_column(tx as int, texture_width as int),
            column == if wide_column > u32::MAX {
                u32::MAX as int
            } else {
                wide_column as int
            },
            framebuffer.same_frame(*old(framebuffer)),
            before == old(framebuffer).pixels(),
            before.len() == w * framebuffer.spec_height(),
            framebuffer.pixels() == strip_rows(
                before,
                w,
                *textures,
                x as int,
                top as int,
                bottom as int,
                y as int,
                impact,
                tx as int,
            ),
        decreases bottom - y,
    {
        let offset: u64 = (y - top) as u64;
        assert(offset * texture_height <= 0xffff_ffff * 0xffff_ffff && offset * texture_height
            / span as int <= texture_height) by (nonlinear_arith)
            requires
                0 <= offset < span,
                offset <= 0xffff_ffff,
                0 <= texture_height <= 0xffff_ffff,
        ;
        let ty: u32 = (offset * (texture_height as u64) / span) as u32;
        let color = textures.get_pixel_color(impact, column, ty);
        proof {
            if wide_column > u32::MAX {
                textures.lemma_wall_clamps_beyond_width(
                    impact,
                    wide_column as int,
                    column as int,
                    ty as int,
                );
            }
            assert(color == wall_texel(
                *textures,
                impact,
                tx as int,
                y - top,
                bottom - top,
            ));
        }
        let ghost prev = framebuffer.pixels();
        framebuffer.set_pixel_color(x, y, color);
        proof {
            let h = framebuffer.spec_height();
            let at = pixel_index(w, x as int, y as int);
            lemma_index_in_range(w, h, x as int, y as int);
            let next = strip_rows(
                before,
                w,
                *textures,
                x as int,
                top as int,
                bottom as int,
                y + 1,
                impact,
                tx as int,
            );
            assert forall|k: int| 0 <= k < before.len() implies prev.update(at, color)[k]
                == next[k] by {
                if k != at {
                    vstd::arithmetic::div_mod::lemma_fundamental_div_mod(k, w);
                    if k % w == x && k / w == y {
                        assert(w * y == y * w) by (nonlinear_arith);
                    }
                }
            }
            assert(framebuffer.pixels() =~= next);
        }
        y = y + 1;
    }
}

/// Draws the walls that the player sees: for every column of the screen a
/// ray is cast, the depth of the wall it meets is recorded, and a strip of
/// that wall's texture is painted, the higher the nearer the wall is.
/// Where the flashlight is on, all that lies beyond its reach is then
/// blacked out.
#[allow(non_snake_case)]
pub fn render_3D(
    framebuffer: &mut Framebuffer,
    maze: &Maze,
    block_size: u32,
    player: &Player,
    texture_cache: &TextureManager,
    trig: &TrigTable,
    game_state: &GameState,
)
    requires
        block_size > 0,
    ensures
        final(framebuffer).same_setup(*old(framebuffer)),
        ({
            let scene = Scene {
                grid: maze@,
                player: *player,
                block_size,
                trig: *trig,
                textures: *texture_cache,
                width: old(framebuffer).spec_width(),
                height: old(framebuffer).spec_height(),
            };
            &&& final(framebuffer).depths() == scene.depths_upto(
                old(framebuffer).depths(),
                scene.width,
            )
            &&& final(framebuffer).pixels() == if game_state.flashlight_active {
                spotlit(scene.walls(old(framebuffer).pixels()), scene.width, scene.height)
            } else {
                scene.walls(old(framebuffer).pixels())
            }
        }),
        forall|x: int|
            0 <= x < final(framebuffer).depths().len() ==> final(framebuffer).depths()[x]
                >= MIN_DEPTH,
{
    let width = framebuffer.width();
    let height = framebuffer.height();
    let ghost scene = Scene {
        grid: maze@,
        player: *player,
        block_size,
        trig: *trig,
        textures: *texture_cache,
        width: width as int,
        height: height as int,
    };
    let ghost before = framebuffer.pixels();
    let ghost depths_before = framebuffer.depths();
    let fov: u64 = player.fov as u64;
    let mut i: u32 = 0;
    assert(framebuffer.pixels() =~= scene.walls_upto(before, 0));
    assert(framebuffer.depths() =~= scene.depths_upto(depths_before, 0));
    while i < width
        invariant
            i <= width,
            block_size > 0,
            fov == player.fov,
            width == framebuffer.spec_width(),
            height == framebuffer.spec_height(),
            framebuffer.same_setup(*old(framebuffer)),
            before == old(framebuffer).pixels(),
            depths_before == old(framebuffer).depths(),
            before.len() == width as int * height as int,
            depths_before.len() == width,
            scene == (Scene {
                grid: maze@,
                player: *player,
                block_size,
                trig: *trig,
                textures: *texture_cache,
                width: width as int,
                height: height as int,
            }),
            framebuffer.pixels() == scene.walls_upto(before, i as int),
            framebuffer.depths() == scene.depths_upto(depths_before, i as int),
            forall|x: int| 0 <= x < i ==> framebuffer.depths()[x] >= MIN_DEPTH,
        decreases width - i,
    {
        assert(i as int * fov as int <= 0xffff_ffff * 0xffff_ffff) by (nonlinear_arith)
            requires
                0 <= i <= 0xffff_ffff,
                0 <= fov <= 0xffff_ffff,
        ;
        let swept: u64 = i as u64 * fov / (width as u64);
        assert(swept <= fov) by (nonlinear_arith)
            requires
                swept == i as int * fov as int / width as int,
                0 <= i < width,
                0 <= fov,
        ;
        let turn: i64 = swept as i64 - (fov / 2) as i64;
        assert(turn == scene.turn(i as int));
        let a = trig.wrap_angle(player.a as i64 + turn);
        let hit = cast_ray(maze, player, block_size, trig, a);
        assert(ray_at(*player, block_size, *trig, a as int) == ray_at(
            *player,
            block_size,
            *trig,
            player.a + turn,
        ));
        assert(hit == scene.hit(i as int));
        let cos = trig.cos(trig.wrap_angle(turn));
        let depth = correct_distance(hit.distance, cos);
        assert(depth == scene.depth(i as int));
        framebuffer.set_depth(i, depth);
        assert(framebuffer.depths() =~= scene.depths_upto(depths_before, i + 1));
        let (top, bottom) = strip_bounds(height, depth);
        draw_strip(framebuffer, texture_cache, i, top, bottom, hit.impact, hit.tx as u32);
        assert(framebuffer.pixels() =~= scene.walls_upto(before, i + 1));
        i = i + 1;
    }
    if game_state.flashlight_active {
        apply_flashlight(framebuffer);
    }
}

/// Darkens the picture as a flashlight held at the middle of the screen
/// would leave it.
pub fn apply_flashlight(framebuffer: &mut Framebuffer)
    ensures
        final(framebuffer).same_frame(*old(framebuffer)),
        final(framebuffer).pixels() == spotlit(
            old(framebuffer).pixels(),
            old(framebuffer).spec_width(),
            old(framebuffer).spec_height(),
        ),
{
    let width = framebuffer.width();
    let height = framebuffer.height();
    let ghost before = framebuffer.pixels();
    let ghost w = width as int;
    let ghost h = height as int;
    if width == 0 {
        assert(before.len() == 0) by (nonlinear_arith)
            requires
                before.len() == w * h,
                w == 0,
        ;
        assert(framebuffer.pixels() =~= spotlit(before, w, h));
        return ;
    }
    let mut y: u32 = 0;
    while y < height
        invariant
            y <= height,
            0 < width,
            w == width,
            h == height,
            width == framebuffer.spec_width(),
            height == framebuffer.spec_height(),
            framebuffer.same_frame(*old(framebuffer)),
            before == old(framebuffer).pixels(),
            before.len() == w * h,
            w * h <= crate::framebuffer::MAX_PIXELS,
            framebuffer.pixels().len() == before.len(),
            forall|k: int|
                0 <= k < before.len() ==> framebuffer.pixels()[k] == if k < y * w {
                    spot_pixel(w, h, k % w, k / w, before[k])
                } else {
                    before[k]
                },
        decreases height - y,
    {
        let mut x: u32 = 0;
        while x < width
            invariant
                x <= width,
                y < height,
                0 < width,
                w == width,
                h == height,
                width == framebuffer.spec_width(),
                height == framebuffer.spec_height(),
                framebuffer.same_frame(*old(framebuffer)),
                before == old(framebuffer).pixels(),
                before.len() == w * h,
                w * h <= crate::framebuffer::MAX_PIXELS,
                framebuffer.pixels().len() == before.len(),
                forall|k: int|
                    0 <= k < before.len() ==> framebuffer.pixels()[k] == if k < y * w + x {
                        spot_pixel(w, h, k % w, k / w, before[k])
                    } else {
                        before[k]
                    },
            decreases width - x,
        {
            proof {
                lemma_index_in_range(w, h, x as int, y as int);
            }
            let c = framebuffer.get_color(x, y);
            let lit = spot_color(width, height, x, y, c);
            framebuffer.set_pixel_color(x, y, lit);
            x = x + 1;
        }
        proof {
            assert((y + 1) * w == y * w + w) by (nonlinear_arith);
        }
        y = y + 1;
    }
    proof {
        assert(height as int * w == w * h) by (nonlinear_arith)
            requires
                height == h,
        ;
        assert(framebuffer.pixels() =~= spotlit(before, w, h));
    }
}

/// The color that the flashlight leaves of `c` at pixel `(x, y)` of a
/// screen of `width` by `height` pixels.
pub fn spot_color(width: u32, height: u32, x: u32, y: u32, c: Color) -> (lit: Color)
    requires
        x < width,
        y < height,
        width as int * height as int <= crate::framebuffer::MAX_PIXELS,
    ensures
        lit == spot_pixel(width as int, height as int, x as int, y as int, c),
{
    let w: u64 = width as u64;
    let h: u64 = height as u64;
    let ax: u64 = if 2 * (x as u64) >= w {
        2 * (x as u64) - w
    } else {
        w - 2 * (x as u64)
    };
    let ay: u64 = if 2 * (y as u64) >= h {
        2 * (y as u64) - h
    } else {
        h - 2 * (y as u64)
    };
    let ghost area = w as int * h as int;
    assert(0 <= ax * h <= area && 0 <= ay * w <= area) by (nonlinear_arith)
        requires
            0 <= ax <= w,
            0 <= ay <= h,
            area == w * h,
            0 <= w,
            0 <= h,
    ;
    assert(0 < area) by (nonlinear_arith)
        requires
            area == w * h,
            0 < w,
            0 < h,
    ;
    let p: u64 = ax * h;
    let q: u64 = ay * w;
    let a: u64 = w * h;
    assert(0 <= p * p <= 0x2000_0000 * 0x2000_0000 && 0 <= q * q <= 0x2000_0000 * 0x2000_0000 && 0
        < a * a <= 0x2000_0000 * 0x2000_0000) by (nonlinear_arith)
        requires
            0 <= p <= 0x2000_0000,
            0 <= q <= 0x2000_0000,
            0 < a <= 0x2000_0000,
    ;
    let n: u128 = (p * p + q * q) as u128;
    let d: u128 = (a * a) as u128;
    if 25 * n > 4 * d {
        Color::black()
    } else if 125 * n > 14 * d {
        c.faded((5 * (4 * d - 25 * n)) as u64, (6 * d) as u64)
    } else {
        c
    }
}

} // verus!
