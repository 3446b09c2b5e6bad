use vstd::prelude::*;
use crate::color::Color;
use crate::framebuffer::{lemma_index_in_range, pixel_index, Framebuffer};
use crate::maze::{grid_height, grid_width, in_grid, Maze, EMPTY};
use crate::player::{Player, Point};

verus! {

/// The color of walls on the map.
pub open spec fn spec_wall_tint() -> Color {
    Color::rgba(48, 35, 61, 255)
}

#[verifier::when_used_as_spec(spec_wall_tint)]
pub fn wall_tint() -> (c: Color)
    ensures
        c == spec_wall_tint(),
{
    Color::new(48, 35, 61, 255)
}

/// Pixel `(x, y)` lies in the square of side `block_size` whose upper left
/// corner is `(xo, yo)`.
pub open spec fn in_square(xo: int, yo: int, block_size: int, x: int, y: int) -> bool {
    xo <= x < xo + block_size && yo <= y < yo + block_size
}

/// Pixel `(x, y)` shows a wall of the maze when each cell is drawn as a
/// square of side `block_size`.
pub open spec fn shows_wall(grid: Seq<Seq<char>>, block_size: int, x: int, y: int) -> bool {
    &&& block_size > 0
    &&& in_grid(grid, x / block_size, y / block_size)
    &&& grid[y / block_size][x / block_size] != EMPTY
}

/// Pixel `(x, y)` belongs to the marker that is drawn at `at`: the square
/// of three by three pixels around it.
pub open spec fn in_marker(at: Point, x: int, y: int) -> bool {
    at.x - 1 <= x <= at.x + 1 && at.y - 1 <= y <= at.y + 1
}

/// Pixel `(x, y)` belongs to the cross that is drawn at `at`: the pixel
/// itself and its four neighbours.
pub open spec fn in_cross(at: Point, x: int, y: int) -> bool {
    (y == at.y && at.x - 1 <= x <= at.x + 1) || (x == at.x && at.y - 1 <= y <= at.y + 1)
}

/// The color of pixel `(x, y)` of the map drawn over a pixel of color
/// `before`: white in the marker of the player, the tint of walls where a
/// wall is shown, and as before elsewhere.
pub open spec fn map_pixel(
    grid: Seq<Seq<char>>,
    block_size: int,
    player: Player,
    x: int,
    y: int,
    before: Color,
) -> Color {
    if in_marker(player.pos, x, y) {
        Color::white()
    } else if shows_wall(grid, block_size, x, y) {
        spec_wall_tint()
    } else {
        before
    }
}

/// The place on the map of a point of the world, where cells that are
/// `world_block` wide in the world are `map_block` wide on the map.
pub open spec fn map_position(pos: Point, world_block: int, map_block: int) -> Point {
    Point {
        x: if pos.x as int * map_block / world_block > u32::MAX {
            u32::MAX
        } else {
            (pos.x as int * map_block / world_block) as u32
        },
        y: if pos.y as int * map_block / world_block > u32::MAX {
            u32::MAX
        } else {
            (pos.y as int * map_block / world_block) as u32
        },
    }
}

fn scale_coordinate(v: u32, world_block: u32, map_block: u32) -> (r: u32)
    requires
        world_block > 0,
    ensures
        r == if v as int * map_block as int / world_block as int > u32::MAX {
            u32::MAX as int
        } else {
            v as int * map_block as int / world_block as int
        },
{
    assert(v as int * map_block as int <= 0xffff_ffff * 0xffff_ffff) by (nonlinear_arith)
        requires
            0 <= v <= 0xffff_ffff,
            0 <= map_block <= 0xffff_ffff,
    ;
    let q: u64 = v as u64 * map_block as u64 / world_block as u64;
    if q > u32::MAX as u64 {
        u32::MAX
    } else {
        q as u32
    }
}

/// The place on the map of a point of the world.
pub fn scale_position(pos: Point, world_block: u32, map_block: u32) -> (at: Point)
    requires
        world_block > 0,
    ensures
        at == map_position(pos, world_block as int, map_block as int),
{
    Point {
        x: scale_coordinate(pos.x, world_block, map_block),
        y: scale_coordinate(pos.y, world_block, map_block),
    }
}

/// Draws one cell of the map: a square of side `block_size` with its upper
/// left corner at `(xo, yo)`, in the tint of walls. A passable cell is not
/// drawn at all. Drawing a wall leaves the tint as the current color.
pub fn draw_cell(framebuffer: &mut Framebuffer, xo: u64, yo: u64, block_size: u32, cell: char)
    ensures
        final(framebuffer).spec_width() == old(framebuffer).spec_width(),
        final(framebuffer).spec_height() == old(framebuffer).spec_height(),
        final(framebuffer).depths() == old(framebuffer).depths(),
        final(framebuffer).background() == old(framebuffer).background(),
        final(framebuffer).current() == if cell == EMPTY {
            old(framebuffer).current()
        } else {
            spec_wall_tint()
        },
        final(framebuffer).pixels().len() == old(framebuffer).pixels().len(),
        forall|k: int|
            0 <= k < old(framebuffer).pixels().len() ==> #[trigger] final(framebuffer).pixels()[k]
                == if cell != EMPTY && in_square(
                xo as int,
                yo as int,
                block_size as int,
                k % old(framebuffer).spec_width(),
                k / old(framebuffer).spec_width(),
            ) {
                spec_wall_tint()
            } else {
                old(framebuffer).pixels()[k]
            },
{
    if cell == EMPTY {
        return ;
    }
    framebuffer.set_current_color(wall_tint());
    let width = framebuffer.width();
    let height = framebuffer.height();
    let ghost w = width as int;
    let ghost h = height as int;
    let ghost before = framebuffer.pixels();
    if xo >= width as u64 || yo >= height as u64 {
        assert forall|k: int| 0 <= k < before.len() implies #[trigger] framebuffer.pixels()[k]
            == if in_square(xo as int, yo as int, block_size as int, k % w, k / w) {
            spec_wall_tint()
        } else {
            before[k]
        } by {
            lemma_pixel_of_index(w, h, k);
        }
        return ;
    }
    let x_end: u32 = if xo + block_size as u64 > width as u64 {
        width
    } else {
        (xo + block_size as u64) as u32
    };
    let y_end: u32 = if yo + block_size as u64 > height as u64 {
        height
    } else {
        (yo + block_size as u64) as u32
    };
    let x_start: u32 = xo as u32;
    let y_start: u32 = yo as u32;
    let mut x: u32 = x_start;
    while x < x_end
        invariant
            x_start <= x,
            x_start < x_end ==> x <= x_end,
            x_start == xo,
            y_start == yo,
            x_end == if xo + block_size > w {
                w
            } else {
                xo + block_size
            },
            y_end == if yo + block_size > h {
                h
            } else {
                yo + block_size
            },
            w == framebuffer.spec_width(),
            h == framebuffer.spec_height(),
            w == old(framebuffer).spec_width(),
            h == old(framebuffer).spec_height(),
            framebuffer.depths() == old(framebuffer).depths(),
            framebuffer.background() == old(framebuffer).background(),
            framebuffer.current() == spec_wall_tint(),
            before == old(framebuffer).pixels(),
            before.len() == w * h,
            framebuffer.pixels().len() == before.len(),
            forall|k: int|
                0 <= k < before.len() ==> #[trigger] framebuffer.pixels()[k] == if k % w < x
                    && in_square(xo as int, yo as int, block_size as int, k % w, k / w) {
                    spec_wall_tint()
                } else {
                    before[k]
                },
        decreases x_end - x,
    {
        let mut y: u32 = y_start;
        while y < y_end
            invariant
                y_start <= y,
                y_start < y_end ==> y <= y_end,
                x_start <= x < x_end,
                x_start == xo,
                y_start == yo,
                x_end == if xo + block_size > w {
                    w
                } else {
                    xo + block_size
                },
                y_end == if yo + block_size > h {
                    h
                } else {
                    yo + block_size
                },
                w == framebuffer.spec_width(),
                h == framebuffer.spec_height(),
                w == old(framebuffer).spec_width(),
                h == old(framebuffer).spec_height(),
                framebuffer.depths() == old(framebuffer).depths(),
                framebuffer.background() == old(framebuffer).background(),
                framebuffer.current() == spec_wall_tint(),
                before == old(framebuffer).pixels(),
                before.len() == w * h,
                framebuffer.pixels().len() == before.len(),
                forall|k: int|
                    0 <= k < before.len() ==> #[trigger] framebuffer.pixels()[k] == if (k % w < x
                        || (k % w == x && k / w < y)) && in_square(
                        xo as int,
                        yo as int,
                        block_size as int,
                        k % w,
                        k / w,
                    ) {
                        spec_wall_tint()
                    } else {
                        before[k]
                    },
            decreases y_end - y,
        {
            let ghost prev = framebuffer.pixels();
            framebuffer.set_pixel(x, y);
            proof {
                lemma_index_in_range(w, h, x as int, y as int);
                let spot = pixel_index(w, x as int, y as int);
                assert forall|k: int| 0 <= k < before.len() implies #[trigger] framebuffer.pixels()[k]
                    == if (k % w < x || (k % w == x && k / w < y + 1)) && in_square(
                    xo as int,
                    yo as int,
                    block_size as int,
                    k % w,
                    k / w,
                ) {
                    spec_wall_tint()
                } else {
                    before[k]
                } by {
                    lemma_pixel_of_index(w, h, k);
                    assert(prev[k] == if (k % w < x || (k % w == x && k / w < y)) && in_square(
                        xo as int,
                        yo as int,
                        block_size as int,
                        k % w,
                        k / w,
                    ) {
                        spec_wall_tint()
                    } else {
                        before[k]
                    });
                }
            }
            y = y + 1;
        }
        proof {
            assert forall|k: int| 0 <= k < before.len() implies #[trigger] framebuffer.pixels()[k]
                == if k % w < x + 1 && in_square(
                xo as int,
                yo as int,
                block_size as int,
                k % w,
                k / w,
            ) {
                spec_wall_tint()
            } else {
                before[k]
            } by {
                lemma_pixel_of_index(w, h, k);
            }
        }
        x = x + 1;
    }
    proof {
        assert forall|k: int| 0 <= k < before.len() implies #[trigger] framebuffer.pixels()[k]
            == if in_square(xo as int, yo as int, block_size as int, k % w, k / w) {
            spec_wall_tint()
        } else {
            before[k]
        } by {
            lemma_pixel_of_index(w, h, k);
        }
    }
}

/// The column and the row of the pixel at place `k` of the buffer.
pub proof fn lemma_pixel_of_index(width: int, height: int, k: int)
    requires
        0 <= k < width * height,
        0 <= width,
        0 <= height,
    ensures
        0 <= k % width < width,
        0 <= k / width < height,
        pixel_index(width, k % width, k / width) == k,
{
    assert(width > 0) by (nonlinear_arith)
        requires
            0 <= k < width * height,
            0 <= width,
    ;
    vstd::arithmetic::div_mod::lemma_fundamental_div_mod(k, width);
    let q = k / width;
    assert(0 <= q < height) by (nonlinear_arith)
        requires
            k == width * q + k % width,
            0 <= k % width < width,
            0 <= k < width * height,
            width > 0,
    ;
    assert(width * q == q * width) by (nonlinear_arith);
}

/// The square with its corner at `(c * block_size, r * block_size)` holds
/// the pixels whose column divided by `block_size` is `c` and whose row
/// divided by `block_size` is `r`.
pub proof fn lemma_square_is_cell(c: int, r: int, block_size: int, x: int, y: int)
    requires
        block_size > 0,
        0 <= x,
        0 <= y,
    ensures
        in_square(c * block_size, r * block_size, block_size, x, y) == (x / block_size == c && y
            / block_size == r),
{
    lemma_span_is_quotient(c, block_size, x);
    lemma_span_is_quotient(r, block_size, y);
}

proof fn lemma_span_is_quotient(c: int, d: int, x: int)
    requires
        d > 0,
    ensures
        (c * d <= x < c * d + d) == (x / d == c),
{
    vstd::arithmetic::div_mod::lemma_fundamental_div_mod(x, d);
    if c * d <= x < c * d + d {
        assert(d * c == c * d) by (nonlinear_arith);
        vstd::arithmetic::div_mod::lemma_fundamental_div_mod_converse(x, d, c, x - c * d);
    }
    if x / d == c {
        assert(d * (x / d) == c * d) by (nonlinear_arith)
            requires
                x / d == c,
        ;
    }
}

/// Paints pixel `(x, y)` in `color`, if the buffer holds it.
fn plot(framebuffer: &mut Framebuffer, x: i64, y: i64, color: Color)
    ensures
        final(framebuffer).same_frame(*old(framebuffer)),
        final(framebuffer).pixels().len() == old(framebuffer).pixels().len(),
        forall|k: int|
            0 <= k < old(framebuffer).pixels().len() ==> #[trigger] final(framebuffer).pixels()[k]
                == if k % old(framebuffer).spec_width() == x && k / old(framebuffer).spec_width()
                == y {
                color
            } else {
                old(framebuffer).pixels()[k]
            },
{
    let width = framebuffer.width();
    let height = framebuffer.height();
    let ghost w = width as int;
    let ghost h = height as int;
    let ghost before = framebuffer.pixels();
    if 0 <= x && x < width as i64 && 0 <= y && y < height as i64 {
        framebuffer.set_pixel_color(x as u32, y as u32, color);
        proof {
            lemma_index_in_range(w, h, x as int, y as int);
        }
    }
    assert forall|k: int| 0 <= k < before.len() implies #[trigger] framebuffer.pixels()[k] == if k
        % w == x && k / w == y {
        color
    } else {
        before[k]
    } by {
        lemma_pixel_of_index(w, h, k);
    }
}

/// Paints the square of three by three pixels around `at` in `color`, as
/// far as the buffer holds it.
pub fn draw_marker(framebuffer: &mut Framebuffer, at: Point, color: Color)
    ensures
        final(framebuffer).same_frame(*old(framebuffer)),
        final(framebuffer).pixels().len() == old(framebuffer).pixels().len(),
        forall|k: int|
            0 <= k < old(framebuffer).pixels().len() ==> #[trigger] final(framebuffer).pixels()[k]
                == if in_marker(
                at,
                k % old(framebuffer).spec_width(),
                k / old(framebuffer).spec_width(),
            ) {
                color
            } else {
                old(framebuffer).pixels()[k]
            },
{
    let x = at.x as i64;
    let y = at.y as i64;
    plot(framebuffer, x - 1, y - 1, color);
    plot(framebuffer, x, y - 1, color);
    plot(framebuffer, x + 1, y - 1, color);
    plot(framebuffer, x - 1, y, color);
    plot(framebuffer, x, y, color);
    plot(framebuffer, x + 1, y, color);
    plot(framebuffer, x - 1, y + 1, color);
    plot(framebuffer, x, y + 1, color);
    plot(framebuffer, x + 1, y + 1, color);
}

/// Paints the pixel at `at` and its four neighbours in `color`, as far as
/// the buffer holds them.
pub fn draw_cross(framebuffer: &mut Framebuffer, at: Point, color: Color)
    ensures
        final(framebuffer).same_frame(*old(framebuffer)),
        final(framebuffer).pixels().len() == old(framebuffer).pixels().len(),
        forall|k: int|
            0 <= k < old(framebuffer).pixels().len() ==> #[trigger] final(framebuffer).pixels()[k]
                == if in_cross(
                at,
                k % old(framebuffer).spec_width(),
                k / old(framebuffer).spec_width(),
            ) {
                color
            } else {
                old(framebuffer).pixels()[k]
            },
{
    let x = at.x as i64;
    let y = at.y as i64;
    plot(framebuffer, x, y - 1, color);
    plot(framebuffer, x - 1, y, color);
    plot(framebuffer, x, y, color);
    plot(framebuffer, x + 1, y, color);
    plot(framebuffer, x, y + 1, color);
}

/// The cell at column `c` of row `r` has been drawn once the rows before
/// `rows` and the first `cols` cells of row `rows` have been.
spec fn drawn(c: int, r: int, rows: int, cols: int) -> bool {
    r < rows || (r == rows && c < cols)
}

/// Draws the map: every wall of the maze as a square of side `block_size`
/// in the tint of walls, and over it a white marker of three by three
/// pixels at the position of `player`. White is left as the current color.
pub fn render_maze(framebuffer: &mut Framebuffer, maze: &Maze, block_size: u32, player: &Player)
    ensures
        final(framebuffer).spec_width() == old(framebuffer).spec_width(),
        final(framebuffer).spec_height() == old(framebuffer).spec_height(),
        final(framebuffer).depths() == old(framebuffer).depths(),
        final(framebuffer).background() == old(framebuffer).background(),
        final(framebuffer).current() == Color::white(),
        final(framebuffer).pixels() == Seq::new(
            old(framebuffer).pixels().len(),
            |k: int|
                map_pixel(
                    maze@,
                    block_size as int,
                    *player,
                    k % old(framebuffer).spec_width(),
                    k / old(framebuffer).spec_width(),
                    old(framebuffer).pixels()[k],
                ),
        ),
{
    let width = framebuffer.width();
    let height = framebuffer.height();
    let ghost w = width as int;
    let ghost h = height as int;
    let ghost before = framebuffer.pixels();
    let ghost grid = maze@;
    let rows = maze.height();
    let cols = maze.width();
    let bs = block_size as u64;
    let mut r: usize = 0;
    if block_size > 0 {
        while r < rows
            invariant
                r <= rows,
                rows == grid_height(grid),
                cols == grid_width(grid),
                rows <= 0x7fff_ffff,
                cols <= 0x7fff_ffff,
                grid == maze@,
                bs == block_size,
                block_size > 0,
                w == width,
                h == height,
                w == framebuffer.spec_width(),
                h == framebuffer.spec_height(),
                w == old(framebuffer).spec_width(),
                h == old(framebuffer).spec_height(),
                framebuffer.depths() == old(framebuffer).depths(),
                framebuffer.background() == old(framebuffer).background(),
                before == old(framebuffer).pixels(),
                before.len() == w * h,
                framebuffer.pixels().len() == before.len(),
                forall|k: int|
                    0 <= k < before.len() ==> #[trigger] framebuffer.pixels()[k] == if drawn(
                        (k % w) / (block_size as int),
                        (k / w) / (block_size as int),
                        r as int,
                        0,
                    ) && shows_wall(grid, block_size as int, k % w, k / w) {
                        spec_wall_tint()
                    } else {
                        before[k]
                    },
            decreases rows - r,
        {
            let mut c: usize = 0;
            while c < cols
                invariant
                    c <= cols,
                    r < rows,
                    rows == grid_height(grid),
                    cols == grid_width(grid),
                    rows <= 0x7fff_ffff,
                    cols <= 0x7fff_ffff,
                    grid == maze@,
                    bs == block_size,
                    block_size > 0,
                    w == width,
                    h == height,
                    w == framebuffer.spec_width(),
                    h == framebuffer.spec_height(),
                    w == old(framebuffer).spec_width(),
                    h == old(framebuffer).spec_height(),
                    framebuffer.depths() == old(framebuffer).depths(),
                    framebuffer.background() == old(framebuffer).background(),
                    before == old(framebuffer).pixels(),
                    before.len() == w * h,
                    framebuffer.pixels().len() == before.len(),
                    forall|k: int|
                        0 <= k < before.len() ==> #[trigger] framebuffer.pixels()[k] == if drawn(
                            (k % w) / (block_size as int),
                            (k / w) / (block_size as int),
                            r as int,
                            c as int,
                        ) && shows_wall(grid, block_size as int, k % w, k / w) {
                            spec_wall_tint()
                        } else {
                            before[k]
                        },
                decreases cols - c,
            {
                let cell = maze.symbol(c as i64, r as i64);
                assert(c as int * bs as int <= 0x7fff_ffff * 0xffff_ffff && r as int * bs as int
                    <= 0x7fff_ffff * 0xffff_ffff) by (nonlinear_arith)
                    requires
                        0 <= c <= 0x7fff_ffff,
                        0 <= r <= 0x7fff_ffff,
                        0 <= bs <= 0xffff_ffff,
                ;
                let xo: u64 = c as u64 * bs;
                let yo: u64 = r as u64 * bs;
                let ghost prev = framebuffer.pixels();
                draw_cell(framebuffer, xo, yo, block_size, cell);
                proof {
                    assert forall|k: int| 0 <= k < before.len() implies #[trigger] framebuffer.pixels()[k]
                        == if drawn(
                        (k % w) / (block_size as int),
                        (k / w) / (block_size as int),
                        r as int,
                        c + 1,
                    ) && shows_wall(grid, block_size as int, k % w, k / w) {
                        spec_wall_tint()
                    } else {
                        before[k]
                    } by {
                        lemma_pixel_of_index(w, h, k);
                        lemma_square_is_cell(
                            c as int,
                            r as int,
                            block_size as int,
                            k % w,
                            k / w,
                        );
                        assert(prev[k] == if drawn(
                            (k % w) / (block_size as int),
                            (k / w) / (block_size as int),
                            r as int,
                            c as int,
                        ) && shows_wall(grid, block_size as int, k % w, k / w) {
                            spec_wall_tint()
                        } else {
                            before[k]
                        });
                    }
                }
                c = c + 1;
            }
            proof {
                assert forall|k: int| 0 <= k < before.len() implies #[trigger] framebuffer.pixels()[k]
                    == if drawn(
                    (k % w) / (block_size as int),
                    (k / w) / (block_size as int),
                    r + 1,
                    0,
                ) && shows_wall(grid, block_size as int, k % w, k / w) {
                    spec_wall_tint()
                } else {
                    before[k]
                } by {
                    lemma_pixel_of_index(w, h, k);
                }
            }
            r = r + 1;
        }
    }
    framebuffer.set_current_color(Color::white());
    let ghost walls = framebuffer.pixels();
    draw_marker(framebuffer, player.pos, Color::white());
    proof {
        let target = Seq::new(
            before.len(),
            |k: int| map_pixel(grid, block_size as int, *player, k % w, k / w, before[k]),
        );
        assert forall|k: int| 0 <= k < before.len() implies #[trigger] framebuffer.pixels()[k]
            == target[k] by {
            lemma_pixel_of_index(w, h, k);
            assert(walls[k] == if shows_wall(grid, block_size as int, k % w, k / w) {
                spec_wall_tint()
            } else {
                before[k]
            });
        }
        assert(framebuffer.pixels() =~= target);
    }
}

} // verus!
