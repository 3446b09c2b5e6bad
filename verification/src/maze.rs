use vstd::prelude::*;
use crate::player::Point;

verus! {

/// The symbol of a passable cell.
pub const EMPTY: char = ' ';

/// The symbol reported for every cell outside of the grid: the maze is
/// surrounded by an endless wall of this kind.
pub const BOUNDARY: char = '#';

/// The largest number of rows or columns that a maze may have.
pub const MAX_SIDE: usize = 0x7fff_ffff;

/// All rows have the length of the first one.
pub open spec fn rectangular(grid: Seq<Seq<char>>) -> bool {
    forall|r: int| 0 <= r < grid.len() ==> (#[trigger] grid[r]).len() == grid[0].len()
}

/// The number of rows.
pub open spec fn grid_height(grid: Seq<Seq<char>>) -> nat {
    grid.len()
}

/// The number of columns: the length of the first row.
pub open spec fn grid_width(grid: Seq<Seq<char>>) -> nat {
    if grid.len() == 0 {
        0
    } else {
        grid[0].len()
    }
}

/// Column `x` of row `y` is a cell of the grid.
pub open spec fn in_grid(grid: Seq<Seq<char>>, x: int, y: int) -> bool {
    0 <= y < grid_height(grid) && 0 <= x < grid_width(grid)
}

/// The symbol seen at column `x` of row `y`, inside of the grid or not.
pub open spec fn symbol_at(grid: Seq<Seq<char>>, x: int, y: int) -> char {
    if in_grid(grid, x, y) {
        grid[y][x]
    } else {
        BOUNDARY
    }
}

/// A ray stops at column `x` of row `y`.
pub open spec fn blocked(grid: Seq<Seq<char>>, x: int, y: int) -> bool {
    symbol_at(grid, x, y) != EMPTY
}

/// The symbols that a list of rows holds.
pub open spec fn grid_of(rows: Seq<Vec<char>>) -> Seq<Seq<char>> {
    Seq::new(rows.len(), |r: int| rows[r]@)
}

/// The rows that a maze can be made of: equally long, and neither more of
/// them nor longer than [`MAX_SIDE`].
pub open spec fn acceptable(grid: Seq<Seq<char>>) -> bool {
    &&& rectangular(grid)
    &&& grid_height(grid) <= MAX_SIDE
    &&& grid_width(grid) <= MAX_SIDE
}

/// The point `pos` of the world lies in a wall, or outside of the grid,
/// where cells are `block_size` world units wide.
pub open spec fn walled(grid: Seq<Seq<char>>, pos: Point, block_size: int) -> bool {
    blocked(grid, pos.x as int / block_size, pos.y as int / block_size)
}

/// A rectangular grid of cell symbols, indexed by row and then by column.
pub struct Maze {
    rows: Vec<Vec<char>>,
}

impl View for Maze {
    type V = Seq<Seq<char>>;

    closed spec fn view(&self) -> Seq<Seq<char>> {
        grid_of(self.rows@)
    }
}

impl Maze {
    /// The rows are such as a maze can be made of.
    #[verifier::type_invariant]
    pub closed spec fn wf(self) -> bool {
        acceptable(self@)
    }

    /// Takes the rows as the maze, unless they differ in length or one side
    /// is longer than [`MAX_SIDE`].
    pub fn new(rows: Vec<Vec<char>>) -> (maze: Option<Maze>)
        ensures
            maze.is_some() == acceptable(grid_of(rows@)),
            maze.is_some() ==> maze.unwrap()@ == grid_of(rows@) && maze.unwrap().wf(),
    {
        let ghost grid = grid_of(rows@);
        let height = rows.len();
        if height > MAX_SIDE {
            return None;
        }
        if height == 0 {
            let maze = Maze { rows };
            assert(maze@ =~= grid);
            return Some(maze);
        }
        let width = rows[0].len();
        assert(grid[0].len() == width);
        if width > MAX_SIDE {
            return None;
        }
        let mut r: usize = 1;
        while r < height
            invariant
                1 <= r <= height,
                height == rows@.len(),
                width == rows@[0]@.len(),
                grid == grid_of(rows@),
                forall|k: int| 0 <= k < r ==> (#[trigger] grid[k]).len() == width,
            decreases height - r,
        {
            if rows[r].len() != width {
                assert(grid[r as int].len() != grid[0].len());
                return None;
            }
            r += 1;
        }
        let maze = Maze { rows };
        assert(maze@ =~= grid);
        Some(maze)
    }

    /// The number of rows.
    pub fn height(&self) -> (h: usize)
        ensures
            h == grid_height(self@),
            h <= MAX_SIDE,
    {
        proof {
            use_type_invariant(self);
        }
        self.rows.len()
    }

    /// The number of columns.
    pub fn width(&self) -> (w: usize)
        ensures
            w == grid_width(self@),
            w <= MAX_SIDE,
    {
        proof {
            use_type_invariant(self);
        }
        if self.rows.len() == 0 {
            0
        } else {
            self.rows[0].len()
        }
    }

    /// Whether column `x` of row `y` stops whoever comes there: it holds a
    /// wall, or lies outside of the grid.
    pub fn is_wall(&self, x: i64, y: i64) -> (wall: bool)
        ensures
            wall == blocked(self@, x as int, y as int),
    {
        self.symbol(x, y) != EMPTY
    }

    /// Whether the point `pos` of the world lies in a wall, or outside of
    /// the grid, where cells are `block_size` world units wide.
    pub fn blocks(&self, pos: Point, block_size: u32) -> (wall: bool)
        requires
            block_size > 0,
        ensures
            wall == walled(self@, pos, block_size as int),
    {
        self.is_wall((pos.x / block_size) as i64, (pos.y / block_size) as i64)
    }

    /// The symbol at column `x` of row `y`; [`BOUNDARY`] outside of the grid.
    pub fn symbol(&self, x: i64, y: i64) -> (c: char)
        ensures
            c == symbol_at(self@, x as int, y as int),
    {
        proof {
            use_type_invariant(self);
        }
        if y < 0 || x < 0 || y >= MAX_SIDE as i64 || x >= MAX_SIDE as i64 {
            return BOUNDARY;
        }
        let row = y as usize;
        let col = x as usize;
        if row >= self.rows.len() {
            return BOUNDARY;
        }
        assert(self@[row as int] == self.rows@[row as int]@);
        assert(self@[0] == self.rows@[0]@);
        if col >= self.rows[row].len() {
            return BOUNDARY;
        }
        self.rows[row][col]
    }
}

} // verus!
