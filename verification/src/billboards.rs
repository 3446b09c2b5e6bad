use vstd::prelude::*;
use crate::arith::{isqrt, sqrt};
use crate::color::Color;
use crate::framebuffer::{lemma_index_in_range, pixel_index, Framebuffer};
use crate::player::{Player, Point};
use crate::sprites::Sprite;
use crate::textures::TextureManager;
use crate::trig::{TrigTable, ONE};

verus! {

/// A sprite at distance `d` is drawn `SPRITE_SCALE / d` times as high, and
/// as wide, as the screen is high: as high as the screen at a distance of
/// 70 world units. Like every distance, the scale is in fixed point.
pub const SPRITE_SCALE: u64 = 70 * 0x1_0000;

/// Sprites nearer to the plane of the screen than this are not drawn: 30
/// world units, in fixed point.
pub const NEAR_PLANE: u64 = 30 * 0x1_0000;

/// Sprites further from the plane of the screen than this are not drawn:
/// 600 world units, in fixed point.
pub const FAR_PLANE: u64 = 600 * 0x1_0000;

/// The square of the distance between two points.
pub open spec fn squared_distance(p: Point, q: Point) -> int {
    (q.x - p.x) * (q.x - p.x) + (q.y - p.y) * (q.y - p.y)
}

/// Where on the screen a sprite is drawn, and at which depth: columns
/// `left` to `right` and rows `top` to `bottom`, each without its end.
#[derive(Clone, Copy, Debug, PartialEq, Eq, Structural)]
pub struct Placement {
    pub depth: u64,
    pub left: u32,
    pub right: u32,
    pub top: u32,
    pub bottom: u32,
}

/// The angle from the player's direction of view to the point `pos`,
/// within half a turn to either side.
pub open spec fn angle_to(player: Player, trig: TrigTable, pos: Point) -> int {
    let bearing = trig.bearing_of(pos.x - player.pos.x, pos.y - player.pos.y);
    let d = trig.wrap(bearing - player.a);
    if 2 * d > trig.turn() {
        d - trig.turn()
    } else {
        d
    }
}

/// The distance from the player to `pos`, in fixed point.
pub open spec fn distance_to(player: Player, pos: Point) -> int {
    sqrt(squared_distance(player.pos, pos) * 0x1_0000_0000)
}

/// The distance of `pos` from the plane of the screen, in fixed point: its
/// distance from the player, scaled by the cosine of the angle under which
/// it is seen, and at least the smallest depth there is.
pub open spec fn depth_of(player: Player, trig: TrigTable, pos: Point) -> int {
    let cos = trig.cos_of(angle_to(player, trig, pos));
    let along = if cos < 0 {
        -cos
    } else {
        cos
    };
    let d = distance_to(player, pos) * along / (ONE as int);
    if d < 1 {
        1
    } else {
        d
    }
}

/// The player sees the sprite: it is alive, the angle to it is within the
/// field of view, and its depth is between the near and the far plane. A
/// player without a field of view sees nothing.
pub open spec fn in_view(player: Player, trig: TrigTable, sprite: Sprite) -> bool {
    let angle = angle_to(player, trig, sprite.pos);
    let depth = depth_of(player, trig, sprite.pos);
    &&& sprite.is_alive
    &&& player.fov > 0
    &&& -(player.fov as int) <= 2 * angle <= player.fov as int
    &&& NEAR_PLANE as int <= depth <= FAR_PLANE as int
}

/// The screen column under which `pos` is seen, times `2 * fov * dist`,
/// where `dist` is the distance to `pos`: the field of view is spread
/// evenly over the width of the screen.
pub open spec fn centre_scaled(player: Player, trig: TrigTable, pos: Point, width: int) -> int {
    ((2 * angle_to(player, trig, pos) + player.fov as int) * width) * distance_to(player, pos)
}

/// Half of the width of a sprite at `pos`, in screen columns, times
/// `2 * fov * dist`.
pub open spec fn spread_scaled(player: Player, height: int) -> int {
    (SPRITE_SCALE as int * height) * player.fov as int
}

/// The first column of a sprite at `pos`.
pub open spec fn left_of(player: Player, trig: TrigTable, pos: Point, width: int, height: int) -> int {
    let centre = centre_scaled(player, trig, pos, width);
    let spread = spread_scaled(player, height);
    if centre <= spread {
        0
    } else {
        (centre - spread) / (2 * (player.fov as int * distance_to(player, pos)))
    }
}

/// The column after the last one of a sprite at `pos`.
pub open spec fn right_of(player: Player, trig: TrigTable, pos: Point, width: int, height: int) -> int {
    let centre = centre_scaled(player, trig, pos, width);
    let spread = spread_scaled(player, height);
    let r = (centre + spread) / (2 * (player.fov as int * distance_to(player, pos)));
    if r > width {
        width
    } else {
        r
    }
}

/// The first row of a sprite at distance `dist`: sprites are centered on
/// the middle of the screen.
pub open spec fn top_of(dist: int, height: int) -> int {
    if dist <= SPRITE_SCALE as int {
        0
    } else {
        (height * dist - SPRITE_SCALE as int * height) / (2 * dist)
    }
}

/// The row after the last one of a sprite at distance `dist`.
pub open spec fn bottom_of(dist: int, height: int) -> int {
    let b = (height * dist + SPRITE_SCALE as int * height) / (2 * dist);
    if b > height {
        height
    } else {
        b
    }
}

/// Where the sprite is drawn on a screen of `width` by `height` pixels, if
/// the player sees it.
pub open spec fn placement_of(player: Player, trig: TrigTable, sprite: Sprite, width: int, height: int) -> Option<
    Placement,
> {
    if in_view(player, trig, sprite) {
        Some(
            Placement {
                depth: depth_of(player, trig, sprite.pos) as u64,
                left: left_of(player, trig, sprite.pos, width, height) as u32,
                right: right_of(player, trig, sprite.pos, width, height) as u32,
                top: top_of(distance_to(player, sprite.pos), height) as u32,
                bottom: bottom_of(distance_to(player, sprite.pos), height) as u32,
            },
        )
    } else {
        None
    }
}

/// The texel of its sheet that a sprite shows at pixel `(x, y)` when it is
/// drawn at `at`: the current frame is stretched over the rectangle.
pub open spec fn sprite_texel(textures: TextureManager, sprite: Sprite, at: Placement, x: int, y: int) -> Color {
    let sheet = textures.animation_of(sprite.sprite_type).unwrap();
    let frame_width = sheet.0.spec_width() / (sheet.1 as int);
    let frame_height = sheet.0.spec_height();
    let tx = sprite.current_frame * frame_width + (x - at.left) * frame_width / (at.right - at.left);
    let ty = (y - at.top) * frame_height / (at.bottom - at.top);
    textures.sprite_color(sprite.sprite_type, tx, ty)
}

/// What sprites are drawn over: the viewer, the images, and the screen with
/// the depth of the wall in each of its columns.
pub struct Vantage {
    pub player: Player,
    pub trig: TrigTable,
    pub textures: TextureManager,
    pub width: int,
    pub height: int,
    pub depths: Seq<u64>,
}

impl Vantage {
    /// Where the sprite is drawn, if it is drawn at all: the player sees
    /// it, and there is a sheet for sprites of its kind.
    pub open spec fn placement(self, sprite: Sprite) -> Option<Placement> {
        if self.textures.animation_of(sprite.sprite_type).is_some() {
            placement_of(self.player, self.trig, sprite, self.width, self.height)
        } else {
            None
        }
    }

    /// The sprite paints pixel `(x, y)`: the pixel lies in its rectangle,
    /// the sprite is nearer than the wall of that column, and its texel
    /// there is not transparent.
    pub open spec fn paints(self, sprite: Sprite, x: int, y: int) -> bool {
        match self.placement(sprite) {
            Some(at) => {
                &&& at.left <= x < at.right
                &&& at.top <= y < at.bottom
                &&& 0 <= x < self.depths.len()
                &&& at.depth < self.depths[x]
                &&& sprite_texel(self.textures, sprite, at, x, y).is_visible()
            },
            None => false,
        }
    }

    /// The color of pixel `(x, y)` once the sprite is drawn over a pixel
    /// of color `before`.
    pub open spec fn sprite_pixel(self, sprite: Sprite, x: int, y: int, before: Color) -> Color {
        if self.paints(sprite, x, y) {
            sprite_texel(self.textures, sprite, self.placement(sprite).unwrap(), x, y)
        } else {
            before
        }
    }

    /// The sprite is not seen in column `x`: it is not drawn at all, or
    /// the wall of that column is as near as the sprite, or nearer.
    pub open spec fn hidden(self, sprite: Sprite, x: int) -> bool {
        match self.placement(sprite) {
            Some(at) => !(0 <= x < self.depths.len()) || at.depth >= self.depths[x],
            None => true,
        }
    }

    /// The color of pixel `(x, y)` once the first `count` sprites of
    /// `order` are drawn over a pixel of color `before`: that of the last
    /// of them that paints the pixel.
    pub open spec fn covered(
        self,
        sprites: Seq<Sprite>,
        order: Seq<int>,
        count: int,
        x: int,
        y: int,
        before: Color,
    ) -> Color
        decreases count,
    {
        if count <= 0 {
            before
        } else if self.paints(sprites[order[count - 1]], x, y) {
            sprite_texel(
                self.textures,
                sprites[order[count - 1]],
                self.placement(sprites[order[count - 1]]).unwrap(),
                x,
                y,
            )
        } else {
            self.covered(sprites, order, count - 1, x, y, before)
        }
    }

    /// The pixels once the sprite is drawn over the pixels `before`.
    pub open spec fn with_sprite(self, before: Seq<Color>, sprite: Sprite) -> Seq<Color> {
        Seq::new(
            before.len(),
            |k: int| self.sprite_pixel(sprite, k % self.width, k / self.width, before[k]),
        )
    }

    /// The pixels once the first `count` sprites of `order` are drawn over
    /// the pixels `before`, one after the other.
    pub open spec fn with_sprites(
        self,
        before: Seq<Color>,
        sprites: Seq<Sprite>,
        order: Seq<int>,
        count: int,
    ) -> Seq<Color>
        decreases count,
    {
        if count <= 0 {
            before
        } else {
            self.with_sprite(
                self.with_sprites(before, sprites, order, count - 1),
                sprites[order[count - 1]],
            )
        }
    }
}

/// Sprite `i` is drawn before sprite `j`: it is further from `viewer`, or
/// as far and earlier in the list.
pub open spec fn drawn_before(viewer: Point, sprites: Seq<Sprite>, i: int, j: int) -> bool {
    let di = squared_distance(viewer, sprites[i].pos);
    let dj = squared_distance(viewer, sprites[j].pos);
    di > dj || (di == dj && i < j)
}

/// `order` lists every sprite once, from the furthest to the nearest.
pub open spec fn is_paint_order(viewer: Point, sprites: Seq<Sprite>, order: Seq<int>) -> bool {
    &&& order.len() == sprites.len()
    &&& forall|p: int| 0 <= p < order.len() ==> 0 <= #[trigger] order[p] < sprites.len()
    &&& forall|v: int| 0 <= v < sprites.len() ==> #[trigger] order.contains(v)
    &&& forall|p: int, q: int|
        0 <= p < q < order.len() ==> drawn_before(viewer, sprites, #[trigger] order[p], #[trigger] order[q])
}

/// The order in which the sprites are drawn.
pub open spec fn paint_order(viewer: Point, sprites: Seq<Sprite>) -> Seq<int> {
    choose|order: Seq<int>| is_paint_order(viewer, sprites, order)
}

/// There is one order in which the sprites are drawn.
pub proof fn lemma_paint_order_unique(viewer: Point, sprites: Seq<Sprite>, s: Seq<int>, t: Seq<int>)
    requires
        is_paint_order(viewer, sprites, s),
        is_paint_order(viewer, sprites, t),
    ensures
        s == t,
{
    assert forall|p: int| 0 <= p < s.len() implies s[p] == t[p] by {
        lemma_same_upto(viewer, sprites, s, t, p);
    }
    assert(s =~= t);
}

proof fn lemma_same_upto(viewer: Point, sprites: Seq<Sprite>, s: Seq<int>, t: Seq<int>, p: int)
    requires
        is_paint_order(viewer, sprites, s),
        is_paint_order(viewer, sprites, t),
        0 <= p < s.len(),
    ensures
        s[p] == t[p],
    decreases p,
{
    if s[p] != t[p] {
        assert(t.contains(s[p]));
        let q = choose|q: int| 0 <= q < t.len() && t[q] == s[p];
        assert(s.contains(t[p]));
        let r = choose|r: int| 0 <= r < s.len() && s[r] == t[p];
        if q < p {
            lemma_same_upto(viewer, sprites, s, t, q);
            assert(drawn_before(viewer, sprites, s[q], s[p]));
        } else if r < p {
            lemma_same_upto(viewer, sprites, s, t, r);
            assert(drawn_before(viewer, sprites, t[r], t[p]));
        } else {
            assert(drawn_before(viewer, sprites, t[p], t[q]));
            assert(drawn_before(viewer, sprites, s[p], s[r]));
        }
    }
}

fn gap(a: u32, b: u32) -> (g: u64)
    ensures
        g == if a >= b {
            a - b
        } else {
            b - a
        },
        g * g == (a - b) * (a - b),
        g * g <= 0xffff_ffff * 0xffff_ffff,
{
    let g: u64 = if a >= b {
        (a - b) as u64
    } else {
        (b - a) as u64
    };
    assert(g * g == (a - b) * (a - b)) by (nonlinear_arith)
        requires
            g == a - b || g == b - a,
    ;
    assert(g * g <= 0xffff_ffff * 0xffff_ffff) by (nonlinear_arith)
        requires
            0 <= g <= 0xffff_ffff,
    ;
    g
}

/// The square of the distance between two points.
pub fn distance_squared(p: Point, q: Point) -> (d: u128)
    ensures
        d == squared_distance(p, q),
        d <= 2 * (0xffff_ffff * 0xffff_ffff),
{
    let gx = gap(q.x, p.x);
    let gy = gap(q.y, p.y);
    (gx * gx) as u128 + (gy * gy) as u128
}

/// Where the sprite is drawn on a screen of `width` by `height` pixels, if
/// the player sees it.
pub fn place(player: &Player, trig: &TrigTable, sprite: &Sprite, width: u32, height: u32) -> (at:
    Option<Placement>)
    ensures
        at == placement_of(*player, *trig, *sprite, width as int, height as int),
        at.is_some() ==> at.unwrap().right <= width && at.unwrap().bottom <= height,
{
    if !sprite.is_alive || player.fov == 0 {
        return None;
    }
    let fov: i64 = player.fov as i64;
    let turn: i64 = trig.len() as i64;
    let bearing = trig.bearing(player.pos, sprite.pos);
    let d: i64 = trig.wrap_angle(bearing as i64 - player.a as i64) as i64;
    let angle: i64 = if 2 * d > turn {
        d - turn
    } else {
        d
    };
    assert(angle == angle_to(*player, *trig, sprite.pos));
    if 2 * angle > fov || 2 * angle < -fov {
        return None;
    }
    let cos = trig.cos(trig.wrap_angle(angle));
    let along: u128 = if cos < 0 {
        (-(cos as i64)) as u128
    } else {
        cos as u128
    };
    let dist: u64 = isqrt(distance_squared(player.pos, sprite.pos) * 0x1_0000_0000);
    assert(dist <= 0x2_0000_0000_0000) by (nonlinear_arith)
        requires
            dist * dist <= 2 * (0xffff_ffff * 0xffff_ffff) * 0x1_0000_0000,
            0 <= dist,
    ;
    assert(dist == distance_to(*player, sprite.pos));
    assert(dist * along <= 0x2_0000_0000_0000 * 0x1_0000) by (nonlinear_arith)
        requires
            0 <= dist <= 0x2_0000_0000_0000,
            0 <= along <= 0x1_0000,
    ;
    let flat: u128 = (dist as u128) * along / (ONE as u128);
    let depth: u64 = if flat < 1 {
        1
    } else {
        flat as u64
    };
    assert(depth == depth_of(*player, *trig, sprite.pos));
    if depth < NEAR_PLANE || depth > FAR_PLANE {
        return None;
    }
    assert(dist >= 1) by (nonlinear_arith)
        requires
            flat == dist * along / 0x1_0000,
            flat >= 1,
            along >= 0,
            dist >= 0,
    ;
    let w: u128 = width as u128;
    let h: u128 = height as u128;
    let f: u128 = player.fov as u128;
    let dd: u128 = dist as u128;
    let lean: u128 = (2 * angle + fov) as u128;
    assert(lean * w <= 0x2_0000_0000 * 0xffff_ffff) by (nonlinear_arith)
        requires
            0 <= lean <= 0x2_0000_0000,
            0 <= w <= 0xffff_ffff,
    ;
    assert((lean * w) * dd <= (0x2_0000_0000 * 0xffff_ffff) * 0x2_0000_0000_0000)
        by (nonlinear_arith)
        requires
            0 <= lean * w <= 0x2_0000_0000 * 0xffff_ffff,
            0 <= dd <= 0x2_0000_0000_0000,
    ;
    let centre: u128 = (lean * w) * dd;
    assert(SPRITE_SCALE == 4_587_520);
    assert((SPRITE_SCALE * h) * f <= (4_587_520 * 0xffff_ffff) * 0xffff_ffff) by (nonlinear_arith)
        requires
            0 <= SPRITE_SCALE * h <= 4_587_520 * 0xffff_ffff,
            0 <= f <= 0xffff_ffff,
    ;
    let spread: u128 = ((SPRITE_SCALE as u128) * h) * f;
    assert(0 < f * dd <= 0xffff_ffff * 0x2_0000_0000_0000) by (nonlinear_arith)
        requires
            0 < f <= 0xffff_ffff,
            0 < dd <= 0x2_0000_0000_0000,
    ;
    let den: u128 = 2 * (f * dd);
    assert(centre == centre_scaled(*player, *trig, sprite.pos, width as int));
    assert(spread == spread_scaled(*player, height as int));
    proof {
        assert((centre - spread) as int / den as int <= w) by (nonlinear_arith)
            requires
                centre == (lean * w) * dd,
                den == 2 * (f * dd),
                0 <= lean <= 2 * f,
                0 <= w,
                0 < f,
                0 < dd,
                0 <= spread,
        {
            assert((lean * w) * dd <= (2 * f * w) * dd);
            assert((2 * f * w) * dd == w * (2 * (f * dd)));
            assert(centre - spread <= w * den);
        }
    }
    let left: u32 = if centre <= spread {
        0
    } else {
        ((centre - spread) / den) as u32
    };
    let far_right: u128 = (centre + spread) / den;
    let right: u32 = if far_right > w {
        width
    } else {
        far_right as u32
    };
    assert(h * dd <= 0xffff_ffff * 0x2_0000_0000_0000) by (nonlinear_arith)
        requires
            0 <= h <= 0xffff_ffff,
            0 <= dd <= 0x2_0000_0000_0000,
    ;
    let middle: u128 = h * dd;
    let half: u128 = (SPRITE_SCALE as u128) * h;
    proof {
        assert(dd > SPRITE_SCALE ==> middle >= half) by (nonlinear_arith)
            requires
                middle == h * dd,
                half == SPRITE_SCALE * h,
                h >= 0,
        ;
        assert((middle - half) as int / (2 * dd) as int <= h) by (nonlinear_arith)
            requires
                middle == h * dd,
                half >= 0,
                h >= 0,
                dd > 0,
        {
            assert(middle - half <= h * (2 * dd));
        }
        assert((middle + half) as int / (2 * dd) as int >= 0) by (nonlinear_arith)
            requires
                middle >= 0,
                half >= 0,
                dd > 0,
        ;
    }
    let top: u32 = if dist <= SPRITE_SCALE {
        0
    } else {
        ((middle - half) / (2 * dd)) as u32
    };
    let low: u128 = (middle + half) / (2 * dd);
    let bottom: u32 = if low > h {
        height
    } else {
        low as u32
    };
    Some(Placement { depth, left, right, top, bottom })
}

/// The pixels after column `x` of the sprite has been painted down to row
/// `upto`, wherever the sprite is not transparent.
pub open spec fn column_rows(
    before: Seq<Color>,
    width: int,
    textures: TextureManager,
    sprite: Sprite,
    at: Placement,
    x: int,
    upto: int,
) -> Seq<Color> {
    Seq::new(
        before.len(),
        |k: int|
            if k % width == x && at.top <= k / width < upto && sprite_texel(
                textures,
                sprite,
                at,
                x,
                k / width,
            ).is_visible() {
                sprite_texel(textures, sprite, at, x, k / width)
            } else {
                before[k]
            },
    )
}

/// What the sprites are drawn over in `framebuffer`.
pub open spec fn vantage_of(
    framebuffer: Framebuffer,
    player: Player,
    trig: TrigTable,
    textures: TextureManager,
) -> Vantage {
    Vantage {
        player,
        trig,
        textures,
        width: framebuffer.spec_width(),
        height: framebuffer.spec_height(),
        depths: framebuffer.depths(),
    }
}

/// Paints column `x` of a sprite that is drawn at `at`.
fn paint_column(
    framebuffer: &mut Framebuffer,
    textures: &TextureManager,
    sprite: &Sprite,
    at: Placement,
    x: u32,
)
    requires
        textures.animation_of(sprite.sprite_type).is_some(),
        at.left <= x < at.right,
        at.right <= old(framebuffer).spec_width(),
        at.bottom <= old(framebuffer).spec_height(),
    ensures
        final(framebuffer).same_frame(*old(framebuffer)),
        final(framebuffer).pixels() == column_rows(
            old(framebuffer).pixels(),
            old(framebuffer).spec_width(),
            *textures,
            *sprite,
            at,
            x as int,
            at.bottom as int,
        ),
{
    let width = framebuffer.width();
    let ghost w = width as int;
    let ghost before = framebuffer.pixels();
    let info = textures.get_sprite_sheet_info(&sprite.sprite_type);
    let (sheet_w, sheet_h, frames) = info.unwrap();
    let ghost sheet = textures.animation_of(sprite.sprite_type).unwrap();
    proof {
        sheet.0.lemma_sides_bounded();
    }
    let frame_width: u128 = sheet_w as u128 / frames as u128;
    assert(sprite.current_frame * frame_width <= 0xffff_ffff_ffff_ffff * 0xffff_ffff)
        by (nonlinear_arith)
        requires
            0 <= sprite.current_frame <= 0xffff_ffff_ffff_ffff,
            0 <= frame_width <= 0xffff_ffff,
    ;
    let frame_x: u128 = sprite.current_frame as u128 * frame_width;
    let across: u128 = (at.right - at.left) as u128;
    let offset: u128 = (x - at.left) as u128;
    assert(offset * frame_width / across as int <= frame_width) by (nonlinear_arith)
        requires
            0 <= offset < across,
            0 <= frame_width,
    ;
    assert(offset * frame_width <= 0xffff_ffff * 0xffff_ffff) by (nonlinear_arith)
        requires
            0 <= offset <= 0xffff_ffff,
            0 <= frame_width <= 0xffff_ffff,
    ;
    let wide_tx: u128 = frame_x + offset * frame_width / across;
    let tx: u32 = if wide_tx > u32::MAX as u128 {
        u32::MAX
    } else {
        wide_tx as u32
    };
    let mut y: u32 = at.top;
    assert(framebuffer.pixels() =~= column_rows(
        before,
        w,
        *textures,
        *sprite,
        at,
        x as int,
        at.top as int,
    ));
    while y < at.bottom
        invariant
            at.top <= y,
            at.top < at.bottom ==> y <= at.bottom,
            at.top >= at.bottom ==> y == at.top,
            at.bottom <= framebuffer.spec_height(),
            at.left <= x < at.right,
            x < w,
            w == framebuffer.spec_width(),
            framebuffer.same_frame(*old(framebuffer)),
            before == old(framebuffer).pixels(),
            before.len() == w * framebuffer.spec_height(),
            textures.animation_of(sprite.sprite_type) == Some(sheet),
            sheet_h == sheet.0.spec_height(),
            0 <= sheet.0.spec_width() <= u32::MAX,
            wide_tx == sprite.current_frame * (sheet.0.spec_width() / (sheet.1 as int)) + (x
                - at.left) * (sheet.0.spec_width() / (sheet.1 as int)) / (at.right - at.left),
            tx == if wide_tx > u32::MAX {
                u32::MAX as int
            } else {
                wide_tx as int
            },
            framebuffer.pixels() == column_rows(
                before,
                w,
                *textures,
                *sprite,
                at,
                x as int,
                y as int,
            ),
        decreases at.bottom - y,
    {
        let down: u64 = (y - at.top) as u64;
        let tall: u64 = (at.bottom - at.top) as u64;
        assert(down * sheet_h <= 0xffff_ffff * 0xffff_ffff) by (nonlinear_arith)
            requires
                0 <= down <= 0xffff_ffff,
                0 <= sheet_h <= 0xffff_ffff,
        ;
        assert(down * sheet_h / tall as int <= sheet_h) by (nonlinear_arith)
            requires
                0 <= down < tall,
                0 <= sheet_h,
        ;
        let ty: u32 = (down * (sheet_h as u64) / tall) as u32;
        let color = textures.get_sprite_pixel_color(&sprite.sprite_type, tx, ty);
        proof {
            if wide_tx > u32::MAX {
                sheet.0.lemma_clamps_beyond_width(wide_tx as int, tx as int, ty as int);
            }
            assert(color == sprite_texel(*textures, *sprite, at, x as int, y as int));
        }
        if color.is_visible() {
            framebuffer.set_pixel_color(x, y, color);
        }
        proof {
            let h = framebuffer.spec_height();
            let spot = pixel_index(w, x as int, y as int);
            lemma_index_in_range(w, h, x as int, y as int);
            let next = column_rows(before, w, *textures, *sprite, at, x as int, y + 1);
            assert forall|k: int| 0 <= k < before.len() implies #[trigger] framebuffer.pixels()[k]
                == next[k] by {
                if k != spot {
                    vstd::arithmetic::div_mod::lemma_fundamental_div_mod(k, w);
                    if k % w == x && k / w == y {
                        assert(w * y == y * w) by (nonlinear_arith);
                    }
                }
            }
            assert(framebuffer.pixels() =~= next);
        }
        y = y + 1;
    }
    proof {
        if at.top >= at.bottom {
            assert(framebuffer.pixels() =~= column_rows(
                before,
                w,
                *textures,
                *sprite,
                at,
                x as int,
                at.bottom as int,
            ));
        }
    }
}

/// Draws one sprite over the walls: the current frame of its animation,
/// stretched over the rectangle in which the player sees it. A column in
/// which the wall is as near as the sprite, or nearer, is left as it is,
/// and so is every pixel at which the sprite is transparent. The depths
/// do not change.
pub fn draw_sprite(
    framebuffer: &mut Framebuffer,
    player: &Player,
    sprite: &Sprite,
    texture_manager: &TextureManager,
    trig: &TrigTable,
)
    ensures
        final(framebuffer).same_frame(*old(framebuffer)),
        final(framebuffer).pixels() == vantage_of(
            *old(framebuffer),
            *player,
            *trig,
            *texture_manager,
        ).with_sprite(old(framebuffer).pixels(), *sprite),
{
    let width = framebuffer.width();
    let height = framebuffer.height();
    let ghost w = width as int;
    let ghost before = framebuffer.pixels();
    let ghost v = vantage_of(*framebuffer, *player, *trig, *texture_manager);
    let found = place(player, trig, sprite, width, height);
    let sheet = texture_manager.get_sprite_sheet_info(&sprite.sprite_type);
    if found.is_none() || sheet.is_none() {
        assert(framebuffer.pixels() =~= v.with_sprite(before, *sprite));
        return ;
    }
    let at = found.unwrap();
    assert(v.placement(*sprite) == Some(at));
    let mut x: u32 = at.left;
    while x < at.right
        invariant
            at.left <= x,
            at.left < at.right ==> x <= at.right,
            at.right <= width,
            at.bottom <= height,
            w == width,
            width == framebuffer.spec_width(),
            height == framebuffer.spec_height(),
            framebuffer.same_frame(*old(framebuffer)),
            before == old(framebuffer).pixels(),
            before.len() == w * height,
            framebuffer.pixels().len() == before.len(),
            v == vantage_of(*old(framebuffer), *player, *trig, *texture_manager),
            v.placement(*sprite) == Some(at),
            v.depths.len() == w,
            texture_manager.animation_of(sprite.sprite_type).is_some(),
            forall|k: int|
                0 <= k < before.len() ==> #[trigger] framebuffer.pixels()[k] == if k % w < x {
                    v.sprite_pixel(*sprite, k % w, k / w, before[k])
                } else {
                    before[k]
                },
        decreases at.right - x,
    {
        let ghost prev = framebuffer.pixels();
        let wall = framebuffer.depth(x);
        assert(wall == v.depths[x as int]);
        if at.depth < wall {
            paint_column(framebuffer, texture_manager, sprite, at, x);
        }
        assert forall|k: int| 0 <= k < before.len() implies #[trigger] framebuffer.pixels()[k]
            == if k % w < x + 1 {
            v.sprite_pixel(*sprite, k % w, k / w, before[k])
        } else {
            before[k]
        } by {
            assert(prev[k] == if k % w < x {
                v.sprite_pixel(*sprite, k % w, k / w, before[k])
            } else {
                before[k]
            });
        }
        x = x + 1;
    }
    assert(framebuffer.pixels() =~= v.with_sprite(before, *sprite));
}

/// The numbers that `order` holds.
pub open spec fn as_ints(order: Seq<usize>) -> Seq<int> {
    Seq::new(order.len(), |p: int| order[p] as int)
}

/// The order in which the sprites are drawn: from the furthest from
/// `viewer` to the nearest, and sprites that are equally far in the order
/// of the list.
pub fn sort_back_to_front(viewer: Point, sprites: &Vec<Sprite>) -> (order: Vec<usize>)
    ensures
        is_paint_order(viewer, sprites@, as_ints(order@)),
        as_ints(order@) == paint_order(viewer, sprites@),
{
    let n = sprites.len();
    let mut order: Vec<usize> = Vec::new();
    let mut m: usize = 0;
    while m < n
        invariant
            m <= n,
            n == sprites@.len(),
            order@.len() == m,
            forall|p: int| 0 <= p < m ==> 0 <= #[trigger] order@[p] < m,
            forall|v: int| 0 <= v < m ==> #[trigger] as_ints(order@).contains(v),
            forall|p: int, q: int|
                0 <= p < q < m ==> drawn_before(
                    viewer,
                    sprites@,
                    #[trigger] order@[p] as int,
                    #[trigger] order@[q] as int,
                ),
        decreases n - m,
    {
        let far = distance_squared(viewer, sprites[m].pos);
        let mut pos: usize = 0;
        let mut found = false;
        while pos < m && !found
            invariant
                pos <= m,
                m < n,
                n == sprites@.len(),
                order@.len() == m,
                forall|p: int| 0 <= p < m ==> 0 <= #[trigger] order@[p] < m,
                far == squared_distance(viewer, sprites@[m as int].pos),
                forall|p: int|
                    0 <= p < pos - (if found {
                        1int
                    } else {
                        0int
                    }) ==> squared_distance(viewer, sprites@[#[trigger] order@[p] as int].pos)
                        >= far,
                found ==> pos >= 1 && squared_distance(
                    viewer,
                    sprites@[order@[pos - 1] as int].pos,
                ) < far,
            decreases m - pos + (if found { 0int } else { 1int }),
        {
            if distance_squared(viewer, sprites[order[pos]].pos) < far {
                found = true;
            }
            pos = pos + 1;
        }
        if found {
            pos = pos - 1;
        }
        let ghost old_order = order@;
        order.insert(pos, m);
        proof {
            let now = order@;
            assert(now.len() == m + 1);
            assert forall|p: int| 0 <= p < m + 1 implies 0 <= #[trigger] now[p] < m + 1 by {
                if p < pos {
                    assert(now[p] == old_order[p]);
                } else if p > pos {
                    assert(now[p] == old_order[p - 1]);
                }
            }
            assert forall|v: int| 0 <= v < m + 1 implies #[trigger] as_ints(now).contains(v) by {
                if v == m {
                    assert(as_ints(now)[pos as int] == v);
                } else {
                    assert(as_ints(old_order).contains(v));
                    let p = choose|p: int|
                        0 <= p < as_ints(old_order).len() && as_ints(old_order)[p] == v;
                    if p < pos {
                        assert(as_ints(now)[p] == v);
                    } else {
                        assert(as_ints(now)[p + 1] == v);
                    }
                }
            }
            assert forall|p: int, q: int| 0 <= p < q < m + 1 implies drawn_before(
                viewer,
                sprites@,
                #[trigger] now[p] as int,
                #[trigger] now[q] as int,
            ) by {
                if q < pos {
                    assert(now[p] == old_order[p] && now[q] == old_order[q]);
                } else if q == pos {
                    assert(now[p] == old_order[p]);
                } else if p < pos {
                    assert(now[p] == old_order[p] && now[q] == old_order[q - 1]);
                } else if p == pos {
                    assert(now[q] == old_order[q - 1]);
                    if q - 1 > pos {
                        assert(drawn_before(
                            viewer,
                            sprites@,
                            old_order[pos as int] as int,
                            old_order[q - 1] as int,
                        ));
                    }
                } else {
                    assert(now[p] == old_order[p - 1] && now[q] == old_order[q - 1]);
                }
            }
        }
        m = m + 1;
    }
    proof {
        let mine = as_ints(order@);
        assert forall|p: int| 0 <= p < mine.len() implies 0 <= #[trigger] mine[p]
            < sprites@.len() by {
            assert(0 <= order@[p] < m);
        }
        assert forall|p: int, q: int| 0 <= p < q < mine.len() implies drawn_before(
            viewer,
            sprites@,
            #[trigger] mine[p],
            #[trigger] mine[q],
        ) by {
            assert(drawn_before(viewer, sprites@, order@[p] as int, order@[q] as int));
        }
        assert(is_paint_order(viewer, sprites@, mine));
        lemma_paint_order_unique(viewer, sprites@, mine, paint_order(viewer, sprites@));
    }
    order
}

/// Draws all sprites over the walls, from the furthest to the nearest, so
/// that a nearer sprite covers a further one where both are seen.
pub fn render_sprites(
    framebuffer: &mut Framebuffer,
    player: &Player,
    sprites: &Vec<Sprite>,
    texture_cache: &TextureManager,
    trig: &TrigTable,
)
    ensures
        final(framebuffer).same_frame(*old(framebuffer)),
        final(framebuffer).pixels() == vantage_of(
            *old(framebuffer),
            *player,
            *trig,
            *texture_cache,
        ).with_sprites(
            old(framebuffer).pixels(),
            sprites@,
            paint_order(player.pos, sprites@),
            sprites@.len() as int,
        ),
{
    let order = sort_back_to_front(player.pos, sprites);
    let ghost v = vantage_of(*framebuffer, *player, *trig, *texture_cache);
    let ghost before = framebuffer.pixels();
    let ghost ord = paint_order(player.pos, sprites@);
    let mut p: usize = 0;
    while p < order.len()
        invariant
            p <= order@.len(),
            order@.len() == sprites@.len(),
            as_ints(order@) == ord,
            is_paint_order(player.pos, sprites@, ord),
            framebuffer.same_frame(*old(framebuffer)),
            v == vantage_of(*old(framebuffer), *player, *trig, *texture_cache),
            before == old(framebuffer).pixels(),
            framebuffer.pixels() == v.with_sprites(before, sprites@, ord, p as int),
        decreases order@.len() - p,
    {
        let which = order[p];
        assert(ord[p as int] == which);
        assert(vantage_of(*framebuffer, *player, *trig, *texture_cache) == v);
        draw_sprite(framebuffer, player, &sprites[which], texture_cache, trig);
        p = p + 1;
    }
}

/// Drawing sprites keeps the number of pixels, and leaves each pixel in
/// the color of the last sprite that paints it.
pub proof fn lemma_last_painter_shows(
    v: Vantage,
    before: Seq<Color>,
    sprites: Seq<Sprite>,
    order: Seq<int>,
    count: int,
)
    ensures
        v.with_sprites(before, sprites, order, count).len() == before.len(),
        forall|k: int|
            0 <= k < before.len() ==> #[trigger] v.with_sprites(before, sprites, order, count)[k]
                == v.covered(sprites, order, count, k % v.width, k / v.width, before[k]),
    decreases count,
{
    if count > 0 {
        lemma_last_painter_shows(v, before, sprites, order, count - 1);
    }
}

proof fn lemma_covered_settles(
    v: Vantage,
    sprites: Seq<Sprite>,
    order: Seq<int>,
    count: int,
    x: int,
    y: int,
    c: Color,
)
    ensures
        v.covered(sprites, order, count, x, y, v.covered(sprites, order, count, x, y, c))
            == v.covered(sprites, order, count, x, y, c),
    decreases count,
{
    if count > 0 && !v.paints(sprites[order[count - 1]], x, y) {
        lemma_covered_settles(v, sprites, order, count - 1, x, y, c);
    }
}

/// Drawing the same sprites a second time over the picture changes
/// nothing: what the sprites look like depends on nothing that drawing
/// them changes.
pub proof fn lemma_drawing_twice_changes_nothing(
    v: Vantage,
    before: Seq<Color>,
    sprites: Seq<Sprite>,
    order: Seq<int>,
    count: int,
)
    ensures
        v.with_sprites(v.with_sprites(before, sprites, order, count), sprites, order, count)
            == v.with_sprites(before, sprites, order, count),
{
    let once = v.with_sprites(before, sprites, order, count);
    let twice = v.with_sprites(once, sprites, order, count);
    lemma_last_painter_shows(v, before, sprites, order, count);
    lemma_last_painter_shows(v, once, sprites, order, count);
    assert forall|k: int| 0 <= k < before.len() implies twice[k] == once[k] by {
        lemma_covered_settles(v, sprites, order, count, k % v.width, k / v.width, before[k]);
    }
    assert(twice =~= once);
}

/// No sprite paints a pixel in a column in which it is hidden: where every
/// sprite is hidden, by the wall or from view, the pixels stay as they
/// were.
pub proof fn lemma_hidden_sprites_paint_nothing(
    v: Vantage,
    before: Seq<Color>,
    sprites: Seq<Sprite>,
    order: Seq<int>,
    count: int,
    k: int,
)
    requires
        0 <= k < before.len(),
        0 <= count <= order.len(),
        forall|p: int| 0 <= p < count ==> v.hidden(sprites[#[trigger] order[p]], k % v.width),
    ensures
        v.with_sprites(before, sprites, order, count)[k] == before[k],
{
    lemma_last_painter_shows(v, before, sprites, order, count);
    lemma_hidden_covered(v, sprites, order, count, k % v.width, k / v.width, before[k]);
}

proof fn lemma_hidden_covered(
    v: Vantage,
    sprites: Seq<Sprite>,
    order: Seq<int>,
    count: int,
    x: int,
    y: int,
    c: Color,
)
    requires
        0 <= count <= order.len(),
        forall|p: int| 0 <= p < count ==> v.hidden(sprites[#[trigger] order[p]], x),
    ensures
        v.covered(sprites, order, count, x, y, c) == c,
    decreases count,
{
    if count > 0 {
        assert(v.hidden(sprites[order[count - 1]], x));
        lemma_hidden_covered(v, sprites, order, count - 1, x, y, c);
    }
}

/// A sprite changes no pixel of a column in which it is hidden.
pub proof fn lemma_hidden_sprite_paints_nothing(v: Vantage, before: Seq<Color>, sprite: Sprite, k: int)
    requires
        0 <= k < before.len(),
        v.hidden(sprite, k % v.width),
    ensures
        v.with_sprite(before, sprite)[k] == before[k],
{
}

} // verus!
