use vstd::prelude::*;
use crate::arith::lemma_mod_of_negative;
use crate::maze::{blocked, grid_height, grid_width, in_grid, symbol_at, Maze, EMPTY};
use crate::player::Player;
use crate::trig::{TrigTable, ONE};

verus! {

/// The side length, in texels, of a wall texture.
pub const TEXTURE_SIZE: u32 = 128;

/// A ray through the maze: an origin, a direction, and the side length of
/// a cell, in the unit of the origin. The unit is the caller's: a ray with
/// origin and cell in quarters of a world unit starts at a quarter of a
/// unit, and its distances are in quarters. Only the ratio of `dx` to `dy`
/// decides which cells the ray crosses. Distances along the ray are those
/// of the world where the direction has the length `ONE`, as a pair of
/// cosine and sine has.
#[derive(Clone, Copy, Debug)]
pub struct Ray {
    pub x: u32,
    pub y: u32,
    pub dx: i32,
    pub dy: i32,
    pub block_size: u32,
}

/// Where a ray met a wall.
#[derive(Clone, Copy, Debug)]
pub struct Intersect {
    /// Distance from the origin to the wall along the ray, in fixed point:
    /// `ONE` stands for one unit of the origin.
    pub distance: u64,
    /// The symbol of the cell that stopped the ray.
    pub impact: char,
    /// The texture column at the point that was hit, of the
    /// [`TEXTURE_SIZE`] columns that the side of a cell is divided into.
    pub tx: usize,
    /// False where the ray entered the cell across a vertical grid line, true
    /// where it entered across a horizontal one.
    pub side: bool,
}

impl Ray {
    /// The ray has cells to cross and a direction to cross them in.
    pub open spec fn wf(self) -> bool {
        self.block_size > 0 && (self.dx != 0 || self.dy != 0)
    }

    /// The size of the direction along the x axis.
    pub open spec fn abs_dx(self) -> int {
        if self.dx < 0 {
            -(self.dx as int)
        } else {
            self.dx as int
        }
    }

    /// The size of the direction along the y axis.
    pub open spec fn abs_dy(self) -> int {
        if self.dy < 0 {
            -(self.dy as int)
        } else {
            self.dy as int
        }
    }

    /// The column of the cell that holds the origin.
    pub open spec fn origin_col(self) -> int {
        self.x as int / self.block_size as int
    }

    /// The row of the cell that holds the origin.
    pub open spec fn origin_row(self) -> int {
        self.y as int / self.block_size as int
    }

    /// The column reached after crossing `i` vertical grid lines.
    pub open spec fn col(self, i: int) -> int {
        if self.dx < 0 {
            self.origin_col() - i
        } else {
            self.origin_col() + i
        }
    }

    /// The row reached after crossing `j` horizontal grid lines.
    pub open spec fn row(self, j: int) -> int {
        if self.dy < 0 {
            self.origin_row() - j
        } else {
            self.origin_row() + j
        }
    }

    /// How far the `k`-th vertical grid line ahead lies from the origin,
    /// measured along the x axis, for `k >= 1`.
    pub open spec fn reach_x(self, k: int) -> int {
        let first = if self.dx < 0 {
            self.x as int - self.origin_col() * self.block_size as int
        } else {
            (self.origin_col() + 1) * self.block_size as int - self.x as int
        };
        first + (k - 1) * self.block_size as int
    }

    /// How far the `k`-th horizontal grid line ahead lies from the origin,
    /// measured along the y axis, for `k >= 1`.
    pub open spec fn reach_y(self, k: int) -> int {
        let first = if self.dy < 0 {
            self.y as int - self.origin_row() * self.block_size as int
        } else {
            (self.origin_row() + 1) * self.block_size as int - self.y as int
        };
        first + (k - 1) * self.block_size as int
    }

    /// The ray crosses its `k`-th vertical line strictly before its `m`-th
    /// horizontal line: `reach_x(k) / |dx| < reach_y(m) / |dy|`, where a line
    /// that the ray runs parallel to is never crossed.
    pub open spec fn x_before_y(self, k: int, m: int) -> bool {
        self.dx != 0 && (self.dy == 0 || self.reach_x(k) * self.abs_dy() < self.reach_y(m)
            * self.abs_dx())
    }

    /// The ray passes through the cell `i` columns and `j` rows away from
    /// its origin cell: it has crossed the `i`-th vertical line before the
    /// `j+1`-th horizontal one, and the `j`-th horizontal line no later than
    /// the `i+1`-th vertical one. Where both are crossed at once, the
    /// horizontal line counts as crossed first.
    pub open spec fn on_path(self, i: int, j: int) -> bool {
        &&& 0 <= i
        &&& 0 <= j
        &&& i == 0 || self.x_before_y(i, j + 1)
        &&& j == 0 || !self.x_before_y(i + 1, j)
    }

    /// The last line crossed on the way to cell `(i, j)` was a horizontal one.
    pub open spec fn entered_across_y(self, i: int, j: int) -> bool {
        j >= 1 && (i == 0 || self.x_before_y(i, j))
    }

    /// The distance along the ray to the point where it enters cell `(i, j)`,
    /// in fixed point and cut off at `u64::MAX`: the part of the way that
    /// lies along the axis that was crossed, divided by the part of the
    /// direction that lies along it.
    pub open spec fn distance_to(self, i: int, j: int) -> int {
        let exact = if self.entered_across_y(i, j) {
            self.reach_y(j) * (ONE as int * ONE as int) / self.abs_dy()
        } else {
            self.reach_x(i) * (ONE as int * ONE as int) / self.abs_dx()
        };
        if exact > u64::MAX as int {
            u64::MAX as int
        } else {
            exact
        }
    }

    /// The texture column at the point where the ray enters cell `(i, j)`:
    /// the offset of that point within its cell, along the grid line that
    /// was crossed, scaled to `TEXTURE_SIZE`. A ray knows no textures: it
    /// counts columns as a texture of that width has them, and whoever
    /// draws the wall takes the column of the wall's own texture that
    /// stands for it.
    pub open spec fn texture_column(self, i: int, j: int) -> int {
        if self.entered_across_y(i, j) {
            let along = self.x as int * self.abs_dy() + self.reach_y(j) * self.dx as int;
            let cell = self.block_size as int * self.abs_dy();
            (along % cell) * TEXTURE_SIZE as int / cell
        } else {
            let along = self.y as int * self.abs_dx() + self.reach_x(i) * self.dy as int;
            let cell = self.block_size as int * self.abs_dx();
            (along % cell) * TEXTURE_SIZE as int / cell
        }
    }
}

/// Every cell that the ray passes through after its origin cell and before
/// cell `(i, j)` is passable.
pub open spec fn clear_before(grid: Seq<Seq<char>>, ray: Ray, i: int, j: int) -> bool {
    forall|a: int, b: int|
        0 <= a <= i && 0 <= b <= j && a + b >= 1 && !(a == i && b == j) && #[trigger] ray.on_path(
            a,
            b,
        ) ==> !blocked(grid, ray.col(a), ray.row(b))
}

/// Cell `(i, j)` is the first cell after the origin cell in which the ray
/// is stopped, by a wall or by leaving the grid.
pub open spec fn is_first_hit(grid: Seq<Seq<char>>, ray: Ray, i: int, j: int) -> bool {
    &&& i + j >= 1
    &&& ray.on_path(i, j)
    &&& blocked(grid, ray.col(i), ray.row(j))
    &&& clear_before(grid, ray, i, j)
}

/// The cell in which the ray is stopped, as the numbers of vertical and of
/// horizontal grid lines crossed on the way there.
pub open spec fn first_hit(grid: Seq<Seq<char>>, ray: Ray) -> (int, int) {
    choose|p: (int, int)| is_first_hit(grid, ray, p.0, p.1)
}

/// What a cast of `ray` through `grid` reports.
pub open spec fn intersection(grid: Seq<Seq<char>>, ray: Ray) -> Intersect {
    let (i, j) = first_hit(grid, ray);
    Intersect {
        distance: ray.distance_to(i, j) as u64,
        impact: symbol_at(grid, ray.col(i), ray.row(j)),
        tx: ray.texture_column(i, j) as usize,
        side: ray.entered_across_y(i, j),
    }
}

/// The ray that leaves the player's position under angle `a`.
pub open spec fn ray_at(player: Player, block_size: u32, trig: TrigTable, a: int) -> Ray {
    Ray {
        x: player.pos.x,
        y: player.pos.y,
        dx: trig.cos_of(a) as i32,
        dy: trig.sin_of(a) as i32,
        block_size,
    }
}

proof fn lemma_reach_grows(ray: Ray, k: int, k2: int)
    requires
        k <= k2,
    ensures
        ray.reach_x(k) <= ray.reach_x(k2),
        ray.reach_y(k) <= ray.reach_y(k2),
{
    let bs = ray.block_size as int;
    assert((k - 1) * bs <= (k2 - 1) * bs) by (nonlinear_arith)
        requires
            k <= k2,
            bs >= 0,
    ;
}

/// A vertical line that is crossed before some horizontal line is crossed
/// before every later horizontal line too, and so is every earlier vertical
/// line.
pub proof fn lemma_crossing_order(ray: Ray, k: int, m: int, k2: int, m2: int)
    requires
        k <= k2,
        m <= m2,
        ray.x_before_y(k2, m),
    ensures
        ray.x_before_y(k, m2),
{
    lemma_reach_grows(ray, k, k2);
    lemma_reach_grows(ray, m, m2);
    if ray.dy != 0 {
        let ax = ray.abs_dx();
        let ay = ray.abs_dy();
        let xk = ray.reach_x(k);
        let xk2 = ray.reach_x(k2);
        let ym = ray.reach_y(m);
        let ym2 = ray.reach_y(m2);
        assert(xk * ay <= xk2 * ay) by (nonlinear_arith)
            requires
                xk <= xk2,
                ay >= 0,
        ;
        assert(ym * ax <= ym2 * ax) by (nonlinear_arith)
            requires
                ym <= ym2,
                ax >= 0,
        ;
    }
}

/// Two cells on the path of one ray are ordered: one is no further than the
/// other in columns and in rows.
pub proof fn lemma_path_is_chain(ray: Ray, a: int, b: int, c: int, d: int)
    requires
        ray.on_path(a, b),
        ray.on_path(c, d),
    ensures
        (a <= c && b <= d) || (c <= a && d <= b),
{
    if a < c && d < b {
        lemma_crossing_order(ray, a + 1, d + 1, c, b);
    }
    if c < a && b < d {
        lemma_crossing_order(ray, c + 1, b + 1, a, d);
    }
}

/// A ray is stopped in at most one cell.
pub proof fn lemma_first_hit_unique(grid: Seq<Seq<char>>, ray: Ray, a: int, b: int, c: int, d: int)
    requires
        is_first_hit(grid, ray, a, b),
        is_first_hit(grid, ray, c, d),
    ensures
        a == c && b == d,
{
    lemma_path_is_chain(ray, a, b, c, d);
    if a <= c && b <= d && !(a == c && b == d) {
        assert(ray.on_path(a, b));
    }
    if c <= a && d <= b && !(a == c && b == d) {
        assert(ray.on_path(c, d));
    }
}

/// The distance reported for a cell is the distance at which the ray
/// crosses the grid line into that cell, rounded down to the next unit of
/// fixed point: it is the quotient of the way to that line and the part
/// of the direction that leads there.
pub proof fn lemma_distance_rounds_down(ray: Ray, i: int, j: int)
    requires
        ray.wf(),
        ray.on_path(i, j),
        i + j >= 1,
        ray.distance_to(i, j) < u64::MAX,
    ensures
        ray.entered_across_y(i, j) ==> ray.abs_dy() > 0 && ray.distance_to(i, j) * ray.abs_dy()
            <= ray.reach_y(j) * 0x1_0000_0000 < (ray.distance_to(i, j) + 1) * ray.abs_dy(),
        !ray.entered_across_y(i, j) ==> ray.abs_dx() > 0 && ray.distance_to(i, j) * ray.abs_dx()
            <= ray.reach_x(i) * 0x1_0000_0000 < (ray.distance_to(i, j) + 1) * ray.abs_dx(),
{
    assert(ONE as int * ONE as int == 0x1_0000_0000) by (nonlinear_arith)
        requires
            ONE == 0x1_0000,
    ;
    if ray.entered_across_y(i, j) {
        let way = ray.reach_y(j) * 0x1_0000_0000;
        let d = ray.abs_dy();
        vstd::arithmetic::div_mod::lemma_fundamental_div_mod(way, d);
        assert(d * (way / d) == (way / d) * d) by (nonlinear_arith);
        assert((way / d + 1) * d == (way / d) * d + d) by (nonlinear_arith);
    } else {
        let way = ray.reach_x(i) * 0x1_0000_0000;
        let d = ray.abs_dx();
        vstd::arithmetic::div_mod::lemma_fundamental_div_mod(way, d);
        assert(d * (way / d) == (way / d) * d) by (nonlinear_arith);
        assert((way / d + 1) * d == (way / d) * d + d) by (nonlinear_arith);
    }
}

/// A ray along the x axis is stopped in the first cell of its row, in its
/// direction, that is a wall or lies outside of the grid, and at the
/// distance of the grid line before that cell.
pub proof fn lemma_ray_along_x(grid: Seq<Seq<char>>, ray: Ray, k: int)
    requires
        ray.wf(),
        ray.dy == 0,
        k >= 1,
        forall|a: int| 1 <= a < k ==> !blocked(grid, #[trigger] ray.col(a), ray.origin_row()),
        blocked(grid, ray.col(k), ray.origin_row()),
    ensures
        first_hit(grid, ray) == (k, 0int),
        !intersection(grid, ray).side,
        intersection(grid, ray).impact == symbol_at(grid, ray.col(k), ray.origin_row()),
        intersection(grid, ray).distance == ray.distance_to(k, 0),
{
    assert(is_first_hit(grid, ray, k, 0));
    let p = first_hit(grid, ray);
    let witness = (k, 0int);
    assert(is_first_hit(grid, ray, witness.0, witness.1));
    lemma_first_hit_unique(grid, ray, k, 0, p.0, p.1);
    lemma_distance_fits(ray, k, 0);
}

/// A ray along the y axis is stopped in the first cell of its column, in
/// its direction, that is a wall or lies outside of the grid, and at the
/// distance of the grid line before that cell.
pub proof fn lemma_ray_along_y(grid: Seq<Seq<char>>, ray: Ray, k: int)
    requires
        ray.wf(),
        ray.dx == 0,
        k >= 1,
        forall|b: int| 1 <= b < k ==> !blocked(grid, ray.origin_col(), #[trigger] ray.row(b)),
        blocked(grid, ray.origin_col(), ray.row(k)),
    ensures
        first_hit(grid, ray) == (0int, k),
        intersection(grid, ray).side,
        intersection(grid, ray).impact == symbol_at(grid, ray.origin_col(), ray.row(k)),
        intersection(grid, ray).distance == ray.distance_to(0, k),
{
    assert(is_first_hit(grid, ray, 0, k));
    let p = first_hit(grid, ray);
    let witness = (0int, k);
    assert(is_first_hit(grid, ray, witness.0, witness.1));
    lemma_first_hit_unique(grid, ray, 0, k, p.0, p.1);
    lemma_distance_fits(ray, 0, k);
}

/// The number of horizontal lines that the ray crosses before its `k`-th
/// vertical one, where it crosses that one before its `m`-th horizontal
/// one.
proof fn lemma_rows_before(ray: Ray, k: int, m: int) -> (j: int)
    requires
        m >= 1,
        ray.x_before_y(k, m),
    ensures
        0 <= j < m,
        ray.x_before_y(k, j + 1),
        j == 0 || !ray.x_before_y(k, j),
    decreases m,
{
    if m == 1 {
        0
    } else if ray.x_before_y(k, m - 1) {
        lemma_rows_before(ray, k, m - 1)
    } else {
        m - 1
    }
}

/// The number of vertical lines that the ray crosses before its `m`-th
/// horizontal one, where it does not cross its `k`-th vertical one before
/// that.
proof fn lemma_cols_before(ray: Ray, k: int, m: int) -> (i: int)
    requires
        k >= 1,
        !ray.x_before_y(k, m),
    ensures
        0 <= i < k,
        !ray.x_before_y(i + 1, m),
        i == 0 || ray.x_before_y(i, m),
    decreases k,
{
    if k == 1 {
        0
    } else if !ray.x_before_y(k - 1, m) {
        lemma_cols_before(ray, k - 1, m)
    } else {
        k - 1
    }
}

/// Of a vertical and a horizontal grid line, the one that the ray crosses
/// first is the one at the smaller distance along the ray.
pub proof fn lemma_first_crossed_is_nearer(ray: Ray, k: int, m: int)
    requires
        ray.wf(),
        k >= 1,
        m >= 1,
        ray.dx != 0,
        ray.dy != 0,
    ensures
        ray.x_before_y(k, m) ==> ray.distance_to(k, 0) <= ray.distance_to(0, m),
        !ray.x_before_y(k, m) ==> ray.distance_to(0, m) <= ray.distance_to(k, 0),
{
    let c = ONE as int * ONE as int;
    assert(c == 0x1_0000_0000) by (nonlinear_arith)
        requires
            c == ONE as int * ONE as int,
            ONE == 0x1_0000,
    ;
    let x = ray.reach_x(k);
    let y = ray.reach_y(m);
    let ax = ray.abs_dx();
    let ay = ray.abs_dy();
    let qx = x * c / ax;
    let qy = y * c / ay;
    assert(!ray.entered_across_y(k, 0));
    assert(ray.entered_across_y(0, m));
    if ray.x_before_y(k, m) {
        assert(qx <= qy) by (nonlinear_arith)
            requires
                qx == x * c / ax,
                qy == y * c / ay,
                x * ay < y * ax,
                ax > 0,
                ay > 0,
                c > 0,
        {
            assert(qx * ax <= x * c);
            assert((qx * ax) * ay <= (x * c) * ay);
            assert((x * c) * ay == (x * ay) * c);
            assert((x * ay) * c < (y * ax) * c);
            assert((qx * ay) * ax < (y * c) * ax);
            assert(qx * ay < y * c);
            assert(y * c < (qy + 1) * ay);
        }
    } else {
        assert(qy <= qx) by (nonlinear_arith)
            requires
                qx == x * c / ax,
                qy == y * c / ay,
                y * ax <= x * ay,
                ax > 0,
                ay > 0,
                c > 0,
        {
            assert(qy * ay <= y * c);
            assert((qy * ay) * ax <= (y * c) * ax);
            assert((y * c) * ax == (y * ax) * c);
            assert((y * ax) * c <= (x * ay) * c);
            assert((qy * ax) * ay <= (x * c) * ay);
            assert(qy * ax <= x * c);
            assert(x * c < (qx + 1) * ax);
        }
    }
}

/// The cells from column `x0` to `x1` and from row `y0` to `y1` are an
/// empty room with walls on all four sides.
pub open spec fn is_room(grid: Seq<Seq<char>>, x0: int, x1: int, y0: int, y1: int) -> bool {
    &&& forall|x: int, y: int| x0 <= x <= x1 && y0 <= y <= y1 ==> !#[trigger] blocked(grid, x, y)
    &&& forall|y: int| y0 <= y <= y1 ==> #[trigger] blocked(grid, x0 - 1, y)
    &&& forall|y: int| y0 <= y <= y1 ==> #[trigger] blocked(grid, x1 + 1, y)
    &&& forall|x: int| x0 <= x <= x1 ==> #[trigger] blocked(grid, x, y0 - 1)
    &&& forall|x: int| x0 <= x <= x1 ==> #[trigger] blocked(grid, x, y1 + 1)
}

/// The number of vertical grid lines between the origin of the ray and
/// the wall of the room that the ray heads for along the x axis.
pub open spec fn lines_to_wall_x(ray: Ray, x0: int, x1: int) -> int {
    if ray.dx < 0 {
        ray.origin_col() - x0 + 1
    } else {
        x1 + 1 - ray.origin_col()
    }
}

/// The number of horizontal grid lines between the origin of the ray and
/// the wall of the room that the ray heads for along the y axis.
pub open spec fn lines_to_wall_y(ray: Ray, y0: int, y1: int) -> int {
    if ray.dy < 0 {
        ray.origin_row() - y0 + 1
    } else {
        y1 + 1 - ray.origin_row()
    }
}

/// In an empty room, whatever its direction, a ray is stopped by the wall
/// that it reaches first, and at the distance of that wall: the distance
/// to the face of the wall along its axis, divided by the part of the
/// direction that lies along that axis. That is the smaller of the
/// distances to the two walls ahead; in a room that is square about the
/// origin it is the half side divided by the larger of cosine and sine.
pub proof fn lemma_ray_in_room(grid: Seq<Seq<char>>, ray: Ray, x0: int, x1: int, y0: int, y1: int)
    requires
        ray.wf(),
        is_room(grid, x0, x1, y0, y1),
        x0 <= ray.origin_col() <= x1,
        y0 <= ray.origin_row() <= y1,
    ensures
        ({
            let kx = lines_to_wall_x(ray, x0, x1);
            let ky = lines_to_wall_y(ray, y0, y1);
            let hit = intersection(grid, ray);
            &&& if ray.x_before_y(kx, ky) {
                &&& first_hit(grid, ray).0 == kx
                &&& first_hit(grid, ray).1 < ky
                &&& !hit.side
                &&& hit.distance == ray.distance_to(kx, 0)
            } else {
                &&& first_hit(grid, ray).1 == ky
                &&& first_hit(grid, ray).0 < kx
                &&& hit.side
                &&& hit.distance == ray.distance_to(0, ky)
            }
            &&& ray.dx != 0 && ray.dy != 0 ==> hit.distance <= ray.distance_to(kx, 0)
                && hit.distance <= ray.distance_to(0, ky)
        }),
{
    if ray.dx != 0 && ray.dy != 0 {
        lemma_first_crossed_is_nearer(
            ray,
            lines_to_wall_x(ray, x0, x1),
            lines_to_wall_y(ray, y0, y1),
        );
    }
    let kx = lines_to_wall_x(ray, x0, x1);
    let ky = lines_to_wall_y(ray, y0, y1);
    let p = first_hit(grid, ray);
    if ray.x_before_y(kx, ky) {
        let j = lemma_rows_before(ray, kx, ky);
        if j >= 1 && ray.x_before_y(kx + 1, j) {
            lemma_crossing_order(ray, kx, j, kx + 1, j);
        }
        assert(ray.on_path(kx, j));
        assert(y0 <= ray.row(j) <= y1);
        if ray.dx < 0 {
            assert(ray.col(kx) == x0 - 1);
            assert(blocked(grid, x0 - 1, ray.row(j)));
        } else {
            assert(ray.col(kx) == x1 + 1);
            assert(blocked(grid, x1 + 1, ray.row(j)));
        }
        assert forall|a: int, b: int|
            0 <= a <= kx && 0 <= b <= j && a + b >= 1 && !(a == kx && b == j)
                && #[trigger] ray.on_path(a, b) implies !blocked(grid, ray.col(a), ray.row(b)) by {
            if a == kx {
                lemma_crossing_order(ray, kx, b + 1, kx, j);
            }
        }
        let witness = (kx, j);
        assert(is_first_hit(grid, ray, witness.0, witness.1));
        lemma_first_hit_unique(grid, ray, kx, j, p.0, p.1);
        lemma_distance_fits(ray, kx, j);
        assert(!ray.entered_across_y(kx, j));
        assert(ray.distance_to(kx, j) == ray.distance_to(kx, 0));
    } else {
        let i = lemma_cols_before(ray, kx, ky);
        if i >= 1 {
            lemma_crossing_order(ray, i, ky, i, ky + 1);
        }
        assert(ray.on_path(i, ky));
        assert(x0 <= ray.col(i) <= x1);
        if ray.dy < 0 {
            assert(ray.row(ky) == y0 - 1);
            assert(blocked(grid, ray.col(i), y0 - 1));
        } else {
            assert(ray.row(ky) == y1 + 1);
            assert(blocked(grid, ray.col(i), y1 + 1));
        }
        assert forall|a: int, b: int|
            0 <= a <= i && 0 <= b <= ky && a + b >= 1 && !(a == i && b == ky)
                && #[trigger] ray.on_path(a, b) implies !blocked(grid, ray.col(a), ray.row(b)) by {
            if b == ky {
                lemma_crossing_order(ray, a + 1, ky, i, ky);
            }
        }
        let witness = (i, ky);
        assert(is_first_hit(grid, ray, witness.0, witness.1));
        lemma_first_hit_unique(grid, ray, i, ky, p.0, p.1);
        lemma_distance_fits(ray, i, ky);
        assert(ray.entered_across_y(i, ky));
        assert(ray.distance_to(i, ky) == ray.distance_to(0, ky));
    }
}

/// The distance to a cell on the path is not negative and fits in 64 bits.
proof fn lemma_distance_fits(ray: Ray, i: int, j: int)
    requires
        ray.wf(),
        ray.on_path(i, j),
        i + j >= 1,
    ensures
        0 <= ray.distance_to(i, j) <= u64::MAX,
{
    if i >= 1 {
        lemma_reach_grows(ray, 1, i);
    }
    if j >= 1 {
        lemma_reach_grows(ray, 1, j);
    }
    lemma_first_reach(ray.x, ray.block_size);
    lemma_first_reach(ray.y, ray.block_size);
    let bs = ray.block_size as int;
    assert(0 * bs == 0) by (nonlinear_arith);
    assert(ONE as int * ONE as int == 0x1_0000_0000) by (nonlinear_arith)
        requires
            ONE == 0x1_0000,
    ;
    if ray.entered_across_y(i, j) {
        let way = ray.reach_y(j);
        let d = ray.abs_dy();
        assert(way * 0x1_0000_0000 / d >= 0) by (nonlinear_arith)
            requires
                way >= 0,
                d > 0,
        ;
    } else {
        let way = ray.reach_x(i);
        let d = ray.abs_dx();
        assert(way * 0x1_0000_0000 / d >= 0) by (nonlinear_arith)
            requires
                way >= 0,
                d > 0,
        ;
    }
}

proof fn lemma_step_x(grid: Seq<Seq<char>>, ray: Ray, i: int, j: int)
    requires
        ray.on_path(i, j),
        ray.x_before_y(i + 1, j + 1),
        clear_before(grid, ray, i, j),
        i + j >= 1 ==> !blocked(grid, ray.col(i), ray.row(j)),
    ensures
        ray.on_path(i + 1, j),
        !ray.entered_across_y(i + 1, j),
        clear_before(grid, ray, i + 1, j),
{
    if j >= 1 && ray.x_before_y(i + 2, j) {
        lemma_crossing_order(ray, i + 1, j, i + 2, j);
    }
    assert forall|a: int, b: int|
        0 <= a <= i + 1 && 0 <= b <= j && a + b >= 1 && !(a == i + 1 && b == j)
            && #[trigger] ray.on_path(a, b) implies !blocked(grid, ray.col(a), ray.row(b)) by {
        if a == i + 1 {
            lemma_crossing_order(ray, i + 1, b + 1, a, j);
        }
    }
}

proof fn lemma_step_y(grid: Seq<Seq<char>>, ray: Ray, i: int, j: int)
    requires
        ray.on_path(i, j),
        !ray.x_before_y(i + 1, j + 1),
        clear_before(grid, ray, i, j),
        i + j >= 1 ==> !blocked(grid, ray.col(i), ray.row(j)),
    ensures
        ray.on_path(i, j + 1),
        ray.entered_across_y(i, j + 1),
        clear_before(grid, ray, i, j + 1),
{
    if i >= 1 {
        lemma_crossing_order(ray, i, j + 1, i, j + 2);
    }
    assert forall|a: int, b: int|
        0 <= a <= i && 0 <= b <= j + 1 && a + b >= 1 && !(a == i && b == j + 1)
            && #[trigger] ray.on_path(a, b) implies !blocked(grid, ray.col(a), ray.row(b)) by {
        if b == j + 1 {
            lemma_crossing_order(ray, a + 1, j + 1, i, j + 1);
        }
    }
}


/// The number of steps that a ray can take inside of the grid before it has
/// to leave it: the columns left in its direction plus the rows left.
spec fn room(grid: Seq<Seq<char>>, ray: Ray, i: int, j: int) -> int {
    let across = if ray.dx < 0 {
        ray.col(i) + 1
    } else {
        grid_width(grid) - ray.col(i)
    };
    let down = if ray.dy < 0 {
        ray.row(j) + 1
    } else {
        grid_height(grid) - ray.row(j)
    };
    across + down
}

/// The most grid lines that a ray crosses before it is stopped.
pub open spec fn max_steps(grid: Seq<Seq<char>>) -> int {
    if grid_width(grid) + grid_height(grid) >= 1 {
        (grid_width(grid) + grid_height(grid)) as int
    } else {
        1
    }
}

proof fn lemma_first_reach(x: u32, bs: u32)
    requires
        bs > 0,
    ensures
        x as int - (x as int / bs as int) * bs as int == x as int % bs as int,
        0 <= (x as int % bs as int) < bs,
        (x as int / bs as int + 1) * bs as int - x as int == bs - x as int % bs as int,
{
    let q = x as int / bs as int;
    let b = bs as int;
    vstd::arithmetic::div_mod::lemma_fundamental_div_mod(x as int, b);
    assert(b * q == q * b) by (nonlinear_arith);
    assert((q + 1) * b == q * b + b) by (nonlinear_arith);
}

fn magnitude(d: i32) -> (m: u128)
    ensures
        m == if d < 0 {
            -(d as int)
        } else {
            d as int
        },
        m <= 0x8000_0000,
{
    if d < 0 {
        (-(d as i64)) as u128
    } else {
        d as u128
    }
}

/// The distance along the ray at which it has covered `reach` along one
/// axis, where `along` is the length of its direction on that axis.
fn distance_at(reach: u128, along: u128) -> (d: u64)
    requires
        reach <= 0x2_0000_0000_0000_0000,
        0 < along,
    ensures
        d == if reach * (ONE as int * ONE as int) / along as int > u64::MAX as int {
            u64::MAX as int
        } else {
            reach * (ONE as int * ONE as int) / along as int
        },
{
    assert(ONE as int * ONE as int == 0x1_0000_0000) by (nonlinear_arith)
        requires
            ONE == 0x1_0000,
    ;
    let exact: u128 = reach * 0x1_0000_0000 / along;
    if exact > u64::MAX as u128 {
        u64::MAX
    } else {
        exact as u64
    }
}

/// The texture column of the point at offset `start * along + reach * slope`
/// on a grid line, in units of `1 / along`, for cells of side `bs`.
fn column_at(start: u32, reach: u128, slope: i32, along: u128, bs: u32) -> (tx: usize)
    requires
        reach <= 0x2_0000_0000_0000_0000,
        0 < along <= 0x8000_0000,
        0 < bs,
    ensures
        tx == ((start as int * along as int + reach as int * slope as int) % (bs as int
            * along as int)) * (TEXTURE_SIZE as int) / (bs as int * along as int),
        tx < TEXTURE_SIZE,
{
    assert(0 < bs as int * along as int <= 0xffff_ffff * 0x8000_0000) by (nonlinear_arith)
        requires
            0 < bs <= 0xffff_ffff,
            0 < along <= 0x8000_0000,
    ;
    assert(0 <= start as int * along as int <= 0xffff_ffff * 0x8000_0000) by (nonlinear_arith)
        requires
            0 <= start <= 0xffff_ffff,
            0 < along <= 0x8000_0000,
    ;
    let cell: u128 = bs as u128 * along;
    let base: u128 = start as u128 * along;
    let steep: u128 = magnitude(slope);
    assert(0 <= reach as int * steep as int <= 0x2_0000_0000_0000_0000 * 0x8000_0000)
        by (nonlinear_arith)
        requires
            0 <= reach <= 0x2_0000_0000_0000_0000,
            0 <= steep <= 0x8000_0000,
    ;
    let drift: u128 = reach * steep;
    let ghost offset: int = start as int * along as int + reach as int * slope as int;
    assert(slope >= 0 ==> reach as int * slope as int == drift);
    assert(slope < 0 ==> reach as int * slope as int == -(drift as int)) by (nonlinear_arith)
        requires
            drift == reach * steep,
            slope < 0 ==> steep == -(slope as int),
    ;
    let within: u128 = if slope >= 0 {
        (base + drift) % cell
    } else if drift <= base {
        (base - drift) % cell
    } else {
        let back: u128 = (drift - base) % cell;
        proof {
            lemma_mod_of_negative((drift - base) as int, cell as int);
        }
        if back == 0 {
            0
        } else {
            cell - back
        }
    };
    assert(within == offset % (cell as int));
    assert((within * 128) / (cell as int) < 128) by (nonlinear_arith)
        requires
            0 <= within < cell,
    ;
    (within * (TEXTURE_SIZE as u128) / cell) as usize
}

/// Follows the ray from cell to cell until a wall or the edge of the grid
/// stops it, and reports where that happened.
///
/// The ray advances across whichever grid line it reaches first, so the
/// cells visited are exactly those on its path. The cell that holds the
/// origin is never tested: a ray that starts inside of a wall reports the
/// next cell that stops it.
pub fn cast_along(maze: &Maze, ray: Ray) -> (hit: Intersect)
    requires
        ray.wf(),
    ensures
        is_first_hit(maze@, ray, first_hit(maze@, ray).0, first_hit(maze@, ray).1),
        first_hit(maze@, ray).0 + first_hit(maze@, ray).1 <= max_steps(maze@),
        hit == intersection(maze@, ray),
        hit.tx < TEXTURE_SIZE,
        hit.impact != EMPTY,
{
    let ghost grid = maze@;
    let width: u64 = maze.width() as u64;
    let height: u64 = maze.height() as u64;
    let bs: u128 = ray.block_size as u128;
    let abs_dx: u128 = magnitude(ray.dx);
    let abs_dy: u128 = magnitude(ray.dy);
    proof {
        lemma_first_reach(ray.x, ray.block_size);
        lemma_first_reach(ray.y, ray.block_size);
        assert(0 * bs == 0) by (nonlinear_arith);
    }
    let mut next_x: u128 = if ray.dx < 0 {
        (ray.x % ray.block_size) as u128
    } else {
        (ray.block_size - ray.x % ray.block_size) as u128
    };
    let mut next_y: u128 = if ray.dy < 0 {
        (ray.y % ray.block_size) as u128
    } else {
        (ray.block_size - ray.y % ray.block_size) as u128
    };
    let mut map_x: i64 = (ray.x / ray.block_size) as i64;
    let mut map_y: i64 = (ray.y / ray.block_size) as i64;
    let mut i: u64 = 0;
    let mut j: u64 = 0;
    let mut last: u128 = 0;
    let mut side: bool = false;
    let mut impact: char = EMPTY;
    let mut stopped: bool = false;
    while !stopped
        invariant
            ray.wf(),
            grid == maze@,
            width == grid_width(grid),
            height == grid_height(grid),
            width <= 0x7fff_ffff,
            height <= 0x7fff_ffff,
            bs == ray.block_size,
            abs_dx == ray.abs_dx(),
            abs_dy == ray.abs_dy(),
            abs_dx <= 0x8000_0000,
            abs_dy <= 0x8000_0000,
            next_x == ray.reach_x(i + 1),
            next_y == ray.reach_y(j + 1),
            next_x <= (i + 1) * 0x1_0000_0000,
            next_y <= (j + 1) * 0x1_0000_0000,
            last <= 0x1_0000_0000_0000_0000,
            map_x == ray.col(i as int),
            map_y == ray.row(j as int),
            ray.on_path(i as int, j as int),
            clear_before(grid, ray, i as int, j as int),
            i + j <= max_steps(grid),
            !stopped && i + j >= 1 ==> in_grid(grid, map_x as int, map_y as int) && !blocked(
                grid,
                map_x as int,
                map_y as int,
            ) && room(grid, ray, i as int, j as int) + i + j <= width + height + 1,
            stopped ==> i + j >= 1 && blocked(grid, map_x as int, map_y as int) && impact
                == symbol_at(grid, map_x as int, map_y as int) && side == ray.entered_across_y(
                i as int,
                j as int,
            ) && last == (if side {
                ray.reach_y(j as int)
            } else {
                ray.reach_x(i as int)
            }),
        decreases
            if stopped {
                0
            } else {
                width + height + 2 - (i + j)
            },
    {
        assert(next_x * abs_dy <= 0x1_0000_0000_0000_0000 * 0x8000_0000) by (nonlinear_arith)
            requires
                next_x <= 0x1_0000_0000_0000_0000,
                abs_dy <= 0x8000_0000,
        ;
        assert(next_y * abs_dx <= 0x1_0000_0000_0000_0000 * 0x8000_0000) by (nonlinear_arith)
            requires
                next_y <= 0x1_0000_0000_0000_0000,
                abs_dx <= 0x8000_0000,
        ;
        let x_first = abs_dx != 0 && (abs_dy == 0 || next_x * abs_dy < next_y * abs_dx);
        assert(x_first == ray.x_before_y(i + 1, j + 1));
        let ghost room_before = room(grid, ray, i as int, j as int);
        if x_first {
            proof {
                lemma_step_x(grid, ray, i as int, j as int);
                assert((i + 1) * bs == i * bs + bs) by (nonlinear_arith);
            }
            last = next_x;
            next_x = next_x + bs;
            i = i + 1;
            map_x = if ray.dx < 0 {
                map_x - 1
            } else {
                map_x + 1
            };
            side = false;
        } else {
            proof {
                lemma_step_y(grid, ray, i as int, j as int);
                assert((j + 1) * bs == j * bs + bs) by (nonlinear_arith);
            }
            last = next_y;
            next_y = next_y + bs;
            j = j + 1;
            map_y = if ray.dy < 0 {
                map_y - 1
            } else {
                map_y + 1
            };
            side = true;
        }
        assert(room(grid, ray, i as int, j as int) == room_before - 1);
        impact = maze.symbol(map_x, map_y);
        if impact != EMPTY {
            stopped = true;
        }
    }
    proof {
        let p = (i as int, j as int);
        assert(is_first_hit(grid, ray, p.0, p.1));
        let q = first_hit(grid, ray);
        lemma_first_hit_unique(grid, ray, p.0, p.1, q.0, q.1);
    }
    let distance = if side {
        distance_at(last, abs_dy)
    } else {
        distance_at(last, abs_dx)
    };
    let tx = if side {
        column_at(ray.x, last, ray.dx, abs_dy, ray.block_size)
    } else {
        column_at(ray.y, last, ray.dy, abs_dx, ray.block_size)
    };
    Intersect { distance, impact, tx, side }
}

/// Casts a ray from the player's position under angle `a`, counted in steps
/// of the table, through a maze whose cells are `block_size` world units
/// wide.
pub fn cast_ray(maze: &Maze, player: &Player, block_size: u32, trig: &TrigTable, a: u32) -> (hit:
    Intersect)
    requires
        block_size > 0,
    ensures
        ray_at(*player, block_size, *trig, a as int).wf(),
        hit == intersection(maze@, ray_at(*player, block_size, *trig, a as int)),
        ({
            let ray = ray_at(*player, block_size, *trig, a as int);
            &&& is_first_hit(maze@, ray, first_hit(maze@, ray).0, first_hit(maze@, ray).1)
            &&& first_hit(maze@, ray).0 + first_hit(maze@, ray).1 <= max_steps(maze@)
        }),
        hit.tx < TEXTURE_SIZE,
        hit.impact != EMPTY,
{
    let ray = Ray {
        x: player.pos.x,
        y: player.pos.y,
        dx: trig.cos(a),
        dy: trig.sin(a),
        block_size,
    };
    proof {
        use_type_invariant(trig);
        trig.lemma_direction_nonzero(a as int);
    }
    cast_along(maze, ray)
}

} // verus!
