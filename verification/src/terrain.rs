//! The grid cost model: terrain classes, per-cell elevation and wind
//! resistance, movement cost, passability and the neighbour relation.

use crate::fixed::{floor_sqrt, isqrt, lemma_floor_sqrt_bounds};
use crate::table::{filled_table, set_cell};
use crate::text::push_char;
use vstd::prelude::*;

verus! {

/// One whole unit of cost, elevation, wind resistance or energy, in
/// thousandths.
pub const UNIT: u64 = 1000;

/// The side of a cell, in millionths: the unit of lengths.
pub const CELL_SIDE: u64 = 1_000_000;

/// The cost that marks a cell as not traversable (one thousand units).
/// Every cost at or above it is treated as impassable.
pub const IMPASSABLE: u64 = 1_000_000;

/// Elevation given to a hill cell by the map encoding (three units).
pub const HILL_ELEVATION: u32 = 3000;

/// Wind resistance given to a wind-zone cell by the map encoding (two units).
pub const WIND_ZONE_RESISTANCE: u32 = 2000;

/// A cell coordinate.
#[derive(Debug, Clone, Copy, PartialEq, Eq, Hash, Structural)]
pub struct Point {
    pub x: i32,
    pub y: i32,
}

impl Point {
    pub fn new(x: i32, y: i32) -> (p: Point)
        ensures
            p.x == x,
            p.y == y,
    {
        Point { x, y }
    }
}

/// Classification of a cell. Only `Obstacle` blocks traversal; `Start` and
/// `End` are markers that cost as much as `Normal`.
#[derive(Debug, Clone, Copy, PartialEq, Eq, Structural)]
pub enum TerrainType {
    Normal,
    Hill,
    Obstacle,
    WindZone,
    Start,
    End,
}

/// Base movement cost of a terrain class, in thousandths.
pub open spec fn base_cost(kind: TerrainType) -> nat {
    match kind {
        TerrainType::Normal => 1000,
        TerrainType::Hill => 3000,
        TerrainType::WindZone => 2000,
        TerrainType::Obstacle => IMPASSABLE as nat,
        TerrainType::Start => 1000,
        TerrainType::End => 1000,
    }
}

/// The horizontal and vertical offset of the `k`-th neighbour direction.
/// The order is fixed: NW, W, SW, N, S, NE, E, SE.
pub open spec fn direction(k: int) -> (int, int) {
    if k == 0 {
        (-1, -1)
    } else if k == 1 {
        (-1, 0)
    } else if k == 2 {
        (-1, 1)
    } else if k == 3 {
        (0, -1)
    } else if k == 4 {
        (0, 1)
    } else if k == 5 {
        (1, -1)
    } else if k == 6 {
        (1, 0)
    } else {
        (1, 1)
    }
}

/// The position in the direction order of the step from `a` to the adjacent
/// cell `b`.
pub open spec fn direction_index(a: Point, b: Point) -> int {
    let dx = b.x - a.x;
    let dy = b.y - a.y;
    if dx == -1 {
        dy + 1
    } else if dx == 0 {
        if dy == -1 {
            3
        } else {
            4
        }
    } else {
        dy + 6
    }
}

/// Whether `b` is one of the eight cells at Chebyshev distance one from `a`.
pub open spec fn adjacent(a: Point, b: Point) -> bool {
    &&& -1 <= b.x - a.x <= 1
    &&& -1 <= b.y - a.y <= 1
    &&& a != b
}

/// The square of the straight-line distance between two cells.
pub open spec fn squared_distance(a: Point, b: Point) -> nat {
    ((b.x - a.x) * (b.x - a.x) + (b.y - a.y) * (b.y - a.y)) as nat
}

/// The squared distance written out.
pub proof fn lemma_squared_distance(a: Point, b: Point)
    ensures
        squared_distance(a, b) == (b.x - a.x) * (b.x - a.x) + (b.y - a.y) * (b.y - a.y),
{
    let dx = b.x - a.x;
    let dy = b.y - a.y;
    assert(dx * dx >= 0) by (nonlinear_arith);
    assert(dy * dy >= 0) by (nonlinear_arith);
}

/// The straight-line distance between two cells in millionths of a cell
/// side, rounded down: the estimate that guides the search.
pub open spec fn estimated_distance(a: Point, b: Point) -> nat {
    floor_sqrt(1_000_000_000_000 * squared_distance(a, b))
}

/// The character that stands for a terrain class in the map encoding.
pub open spec fn symbol(kind: TerrainType) -> char {
    match kind {
        TerrainType::Normal => '.',
        TerrainType::Hill => '^',
        TerrainType::Obstacle => 'O',
        TerrainType::WindZone => 'W',
        TerrainType::Start => 'S',
        TerrainType::End => 'D',
    }
}

/// The position of the last occurrence of `p` among the first `k` cells
/// of `path`.
pub open spec fn last_visit(path: Seq<Point>, p: Point, k: nat) -> Option<usize>
    decreases k,
{
    if k == 0 {
        None
    } else if path[k - 1] == p {
        Some((k - 1) as usize)
    } else {
        last_visit(path, p, (k - 1) as nat)
    }
}

/// The character drawn over a cell that was last visited at position `i`
/// of a path of `len` cells: `S` on the first cell, `D` on the last, `*`
/// between.
pub open spec fn path_mark(i: usize, len: nat) -> char {
    if i == 0 {
        'S'
    } else if i == len - 1 {
        'D'
    } else {
        '*'
    }
}

/// The mathematical model of a terrain: three row-major tables of equal
/// dimensions.
pub struct Grid {
    pub width: nat,
    pub height: nat,
    pub kinds: Seq<Seq<TerrainType>>,
    pub elevations: Seq<Seq<u32>>,
    pub winds: Seq<Seq<u32>>,
}

impl Grid {
    /// The three tables have `height` rows of `width` cells each.
    pub open spec fn wf(self) -> bool {
        &&& self.kinds.len() == self.height
        &&& self.elevations.len() == self.height
        &&& self.winds.len() == self.height
        &&& forall|y: int| 0 <= y < self.height ==> (#[trigger] self.kinds[y]).len() == self.width
        &&& forall|y: int|
            0 <= y < self.height ==> (#[trigger] self.elevations[y]).len() == self.width
        &&& forall|y: int| 0 <= y < self.height ==> (#[trigger] self.winds[y]).len() == self.width
    }

    /// The grid of the given dimensions with every cell `Normal`, flat and
    /// calm.
    pub open spec fn blank(width: nat, height: nat) -> Grid {
        Grid {
            width,
            height,
            kinds: Seq::new(height, |y: int| Seq::new(width, |x: int| TerrainType::Normal)),
            elevations: Seq::new(height, |y: int| Seq::new(width, |x: int| 0u32)),
            winds: Seq::new(height, |y: int| Seq::new(width, |x: int| 0u32)),
        }
    }

    /// Whether cell (x, y) lies inside the grid.
    pub open spec fn contains(self, x: int, y: int) -> bool {
        0 <= x < self.width && 0 <= y < self.height
    }

    /// Classification of a cell; outside the grid every cell reads as an
    /// obstacle.
    pub open spec fn kind(self, x: int, y: int) -> TerrainType {
        if self.contains(x, y) {
            self.kinds[y][x]
        } else {
            TerrainType::Obstacle
        }
    }

    /// Elevation of a cell; zero outside the grid.
    pub open spec fn elevation(self, x: int, y: int) -> u32 {
        if self.contains(x, y) {
            self.elevations[y][x]
        } else {
            0
        }
    }

    /// Wind resistance of a cell; zero outside the grid.
    pub open spec fn wind(self, x: int, y: int) -> u32 {
        if self.contains(x, y) {
            self.winds[y][x]
        } else {
            0
        }
    }

    /// Whether cell (x, y) can be entered: it lies inside the grid and is
    /// no obstacle.
    pub open spec fn passable(self, x: int, y: int) -> bool {
        self.contains(x, y) && self.kind(x, y) != TerrainType::Obstacle
    }

    /// What a passable cell would cost by its class, elevation and wind:
    /// base + elevation * 0.5 + wind * 0.3, rounded down to a thousandth.
    pub open spec fn terrain_cost(self, x: int, y: int) -> nat {
        base_cost(self.kind(x, y)) + ((5 * self.elevation(x, y) + 3 * self.wind(x, y)) / 10) as nat
    }

    /// Cost of entering a cell: the impassable sentinel outside the grid
    /// and on obstacles, the terrain cost elsewhere.
    pub open spec fn movement_cost(self, x: int, y: int) -> nat {
        if self.passable(x, y) {
            self.terrain_cost(x, y)
        } else {
            IMPASSABLE as nat
        }
    }

    /// The character that stands for cell (x, y) when `path` is drawn
    /// over the grid: the mark of the path where it visits the cell, the
    /// symbol of the terrain elsewhere.
    pub open spec fn drawn(self, path: Seq<Point>, x: int, y: int) -> char {
        if x <= i32::MAX && y <= i32::MAX {
            match last_visit(path, Point { x: x as i32, y: y as i32 }, path.len()) {
                Some(i) => path_mark(i, path.len()),
                None => symbol(self.kind(x, y)),
            }
        } else {
            symbol(self.kind(x, y))
        }
    }

    /// The grid with the class of one cell replaced; unchanged when the
    /// cell lies outside.
    pub open spec fn with_kind(self, x: int, y: int, kind: TerrainType) -> Grid {
        if self.contains(x, y) {
            Grid { kinds: self.kinds.update(y, self.kinds[y].update(x, kind)), ..self }
        } else {
            self
        }
    }

    /// The grid with the elevation of one cell replaced; unchanged when
    /// the cell lies outside.
    pub open spec fn with_elevation(self, x: int, y: int, elevation: u32) -> Grid {
        if self.contains(x, y) {
            Grid {
                elevations: self.elevations.update(y, self.elevations[y].update(x, elevation)),
                ..self
            }
        } else {
            self
        }
    }

    /// The grid with the wind resistance of one cell replaced; unchanged
    /// when the cell lies outside.
    pub open spec fn with_wind(self, x: int, y: int, resistance: u32) -> Grid {
        if self.contains(x, y) {
            Grid { winds: self.winds.update(y, self.winds[y].update(x, resistance)), ..self }
        } else {
            self
        }
    }

    /// The cell reached from `p` in direction `k`, when it is passable and
    /// its coordinates can be held in a `Point`.
    pub open spec fn neighbor_in(self, p: Point, k: int) -> Option<Point> {
        let x = p.x + direction(k).0;
        let y = p.y + direction(k).1;
        if self.passable(x, y) && x <= i32::MAX && y <= i32::MAX {
            Some(Point { x: x as i32, y: y as i32 })
        } else {
            None
        }
    }

    /// The passable neighbours of `p` among the first `k` directions, in
    /// direction order.
    pub open spec fn neighbors_among(self, p: Point, k: nat) -> Seq<Point>
        decreases k,
    {
        if k == 0 {
            Seq::empty()
        } else {
            let before = self.neighbors_among(p, (k - 1) as nat);
            match self.neighbor_in(p, k - 1) {
                Some(q) => before.push(q),
                None => before,
            }
        }
    }

    /// The passable neighbours of `p`, in the fixed direction order.
    pub open spec fn neighbors(self, p: Point) -> Seq<Point> {
        self.neighbors_among(p, 8)
    }

    /// Two well-formed grids of the same dimensions that agree on every
    /// cell are the same grid.
    pub proof fn lemma_same_cells(self, other: Grid)
        requires
            self.wf(),
            other.wf(),
            self.width == other.width,
            self.height == other.height,
            forall|x: int, y: int|
                0 <= x < self.width && 0 <= y < self.height ==> {
                    &&& #[trigger] self.kinds[y][x] == other.kinds[y][x]
                    &&& self.elevations[y][x] == other.elevations[y][x]
                    &&& self.winds[y][x] == other.winds[y][x]
                },
        ensures
            self == other,
    {
        assert forall|y: int| 0 <= y < self.height implies #[trigger] self.kinds[y]
            == other.kinds[y] by {
            assert forall|x: int| 0 <= x < self.width implies self.kinds[y][x]
                == other.kinds[y][x] by {
                assert(self.kinds[y][x] == other.kinds[y][x]);
            }
            assert(self.kinds[y] =~= other.kinds[y]);
        }
        assert forall|y: int| 0 <= y < self.height implies #[trigger] self.elevations[y]
            == other.elevations[y] by {
            assert forall|x: int| 0 <= x < self.width implies self.elevations[y][x]
                == other.elevations[y][x] by {
                assert(self.kinds[y][x] == other.kinds[y][x]);
            }
            assert(self.elevations[y] =~= other.elevations[y]);
        }
        assert forall|y: int| 0 <= y < self.height implies #[trigger] self.winds[y]
            == other.winds[y] by {
            assert forall|x: int| 0 <= x < self.width implies self.winds[y][x]
                == other.winds[y][x] by {
                assert(self.kinds[y][x] == other.kinds[y][x]);
            }
            assert(self.winds[y] =~= other.winds[y]);
        }
        assert(self.kinds =~= other.kinds);
        assert(self.elevations =~= other.elevations);
        assert(self.winds =~= other.winds);
    }

    /// The neighbours found among the first `k` directions are exactly the
    /// passable adjacent cells in those directions, each listed once.
    pub proof fn lemma_neighbors_among(self, p: Point, k: nat)
        requires
            k <= 8,
        ensures
            self.neighbors_among(p, k).len() <= k,
            self.neighbors_among(p, k).no_duplicates(),
            forall|q: Point| #[trigger]
                self.neighbors_among(p, k).contains(q) <==> adjacent(p, q) && self.passable(
                    q.x as int,
                    q.y as int,
                ) && direction_index(p, q) < k,
        decreases k,
    {
        if k > 0 {
            self.lemma_neighbors_among(p, (k - 1) as nat);
            let before = self.neighbors_among(p, (k - 1) as nat);
            let all = self.neighbors_among(p, k);
            match self.neighbor_in(p, k - 1) {
                Some(n) => {
                    assert(all == before.push(n));
                    assert(direction_index(p, n) == k - 1);
                    assert forall|q: Point| #[trigger]
                        all.contains(q) <==> adjacent(p, q) && self.passable(
                            q.x as int,
                            q.y as int,
                        ) && direction_index(p, q) < k by {
                        if all.contains(q) {
                            let i = choose|i: int| 0 <= i < all.len() && all[i] == q;
                            if i < before.len() {
                                assert(before.contains(q));
                            }
                        }
                        if adjacent(p, q) && self.passable(q.x as int, q.y as int)
                            && direction_index(p, q) < k {
                            if direction_index(p, q) == k - 1 {
                                assert(q == n);
                                assert(all[before.len() as int] == q);
                            } else {
                                assert(before.contains(q));
                                let i = choose|i: int| 0 <= i < before.len() && before[i] == q;
                                assert(all[i] == q);
                            }
                        }
                    }
                    assert(!before.contains(n));
                },
                None => {
                    assert(all == before);
                    assert forall|q: Point|
                        adjacent(p, q) && self.passable(q.x as int, q.y as int) implies #[trigger]
                        direction_index(p, q) != k - 1 by {
                        if direction_index(p, q) == k - 1 {
                            assert(self.neighbor_in(p, k - 1) == Some(q));
                        }
                    }
                },
            }
        }
    }

    /// The neighbours of a cell are exactly the passable cells among its
    /// eight adjacent cells, each listed once: none lies outside the grid
    /// and none is an obstacle.
    pub proof fn lemma_neighbors(self, p: Point)
        ensures
            self.neighbors(p).len() <= 8,
            self.neighbors(p).no_duplicates(),
            forall|q: Point| #[trigger]
                self.neighbors(p).contains(q) <==> adjacent(p, q) && self.passable(
                    q.x as int,
                    q.y as int,
                ),
            forall|i: int|
                0 <= i < self.neighbors(p).len() ==> {
                    let q = #[trigger] self.neighbors(p)[i];
                    &&& adjacent(p, q)
                    &&& self.contains(q.x as int, q.y as int)
                    &&& self.kind(q.x as int, q.y as int) != TerrainType::Obstacle
                },
    {
        self.lemma_neighbors_among(p, 8);
        assert forall|i: int| 0 <= i < self.neighbors(p).len() implies {
            let q = #[trigger] self.neighbors(p)[i];
            &&& adjacent(p, q)
            &&& self.contains(q.x as int, q.y as int)
            &&& self.kind(q.x as int, q.y as int) != TerrainType::Obstacle
        } by {
            assert(self.neighbors(p).contains(self.neighbors(p)[i]));
        }
    }

    /// The movement cost reaches the sentinel exactly on the cells outside
    /// the grid, on the obstacles, and on the cells that class, elevation
    /// and wind together lift that high. No cell costs less than one
    /// unit.
    pub proof fn lemma_impassable_cost(self, x: int, y: int)
        ensures
            self.movement_cost(x, y) >= IMPASSABLE <==> !self.contains(x, y) || self.kind(x, y)
                == TerrainType::Obstacle || self.terrain_cost(x, y) >= IMPASSABLE,
            self.terrain_cost(x, y) < IMPASSABLE ==> (self.movement_cost(x, y) >= IMPASSABLE
                <==> !self.contains(x, y) || self.kind(x, y) == TerrainType::Obstacle),
            self.movement_cost(x, y) >= 1000,
    {
    }
}

/// The terrain: classification, elevation and wind resistance of every
/// cell of a `width` by `height` grid.
pub struct Terrain {
    grid: Vec<Vec<TerrainType>>,
    elevation_map: Vec<Vec<u32>>,
    wind_resistance: Vec<Vec<u32>>,
    width: usize,
    height: usize,
}

impl View for Terrain {
    type V = Grid;

    closed spec fn view(&self) -> Grid {
        Grid {
            width: self.width as nat,
            height: self.height as nat,
            kinds: Seq::new(self.grid.len() as nat, |y: int| self.grid[y]@),
            elevations: Seq::new(self.elevation_map.len() as nat, |y: int| self.elevation_map[y]@),
            winds: Seq::new(self.wind_resistance.len() as nat, |y: int| self.wind_resistance[y]@),
        }
    }
}

impl Terrain {
    /// The three tables always have the dimensions that the terrain was
    /// made with.
    #[verifier::type_invariant]
    pub closed spec fn well_formed(&self) -> bool {
        &&& self.grid.len() == self.height
        &&& self.elevation_map.len() == self.height
        &&& self.wind_resistance.len() == self.height
        &&& forall|y: int| 0 <= y < self.height ==> (#[trigger] self.grid[y]).len() == self.width
        &&& forall|y: int|
            0 <= y < self.height ==> (#[trigger] self.elevation_map[y]).len() == self.width
        &&& forall|y: int|
            0 <= y < self.height ==> (#[trigger] self.wind_resistance[y]).len() == self.width
    }

    /// A well-formed terrain has a well-formed model.
    pub proof fn lemma_view_wf(&self)
        requires
            self.well_formed(),
        ensures
            self@.wf(),
    {
    }

    /// A terrain of the given dimensions, all `Normal`, flat and calm.
    pub fn new(width: usize, height: usize) -> (terrain: Terrain)
        ensures
            terrain@ == Grid::blank(width as nat, height as nat),
    {
        let terrain = Terrain {
            grid: filled_table(width, height, TerrainType::Normal),
            elevation_map: filled_table(width, height, 0u32),
            wind_resistance: filled_table(width, height, 0u32),
            width,
            height,
        };
        proof {
            let blank = Grid::blank(width as nat, height as nat);
            assert forall|y: int| 0 <= y < height implies #[trigger] terrain@.kinds[y]
                == blank.kinds[y] by {
                assert(terrain@.kinds[y] =~= blank.kinds[y]);
            }
            assert forall|y: int| 0 <= y < height implies #[trigger] terrain@.elevations[y]
                == blank.elevations[y] by {
                assert(terrain@.elevations[y] =~= blank.elevations[y]);
            }
            assert forall|y: int| 0 <= y < height implies #[trigger] terrain@.winds[y]
                == blank.winds[y] by {
                assert(terrain@.winds[y] =~= blank.winds[y]);
            }
            assert(terrain@.kinds =~= blank.kinds);
            assert(terrain@.elevations =~= blank.elevations);
            assert(terrain@.winds =~= blank.winds);
        }
        terrain
    }

    /// Sets the class of cell (x, y); does nothing outside the grid.
    pub fn set_terrain(&mut self, x: usize, y: usize, terrain_type: TerrainType)
        ensures
            final(self)@ == old(self)@.with_kind(x as int, y as int, terrain_type),
    {
        proof {
            use_type_invariant(&*self);
        }
        if x < self.width && y < self.height {
            set_cell(&mut self.grid, x, y, terrain_type);
            proof {
                let after = old(self)@.with_kind(x as int, y as int, terrain_type);
                assert(self@.kinds[y as int] =~= after.kinds[y as int]);
                assert(self@.kinds =~= after.kinds);
                assert(self@.elevations =~= after.elevations);
                assert(self@.winds =~= after.winds);
            }
        }
    }

    /// The class of cell (x, y); `Obstacle` outside the grid.
    pub fn get_terrain(&self, x: usize, y: usize) -> (kind: TerrainType)
        ensures
            kind == self@.kind(x as int, y as int),
    {
        proof {
            use_type_invariant(self);
        }
        if x < self.width && y < self.height {
            assert(self.grid[y as int].len() == self.width);
            self.grid[y][x]
        } else {
            TerrainType::Obstacle
        }
    }

    pub fn get_width(&self) -> (width: usize)
        ensures
            width == self@.width,
    {
        self.width
    }

    pub fn get_height(&self) -> (height: usize)
        ensures
            height == self@.height,
    {
        self.height
    }

    /// Sets the elevation of cell (x, y); does nothing outside the grid.
    pub fn set_elevation(&mut self, x: usize, y: usize, elevation: u32)
        ensures
            final(self)@ == old(self)@.with_elevation(x as int, y as int, elevation),
    {
        proof {
            use_type_invariant(&*self);
        }
        if x < self.width && y < self.height {
            set_cell(&mut self.elevation_map, x, y, elevation);
            proof {
                let after = old(self)@.with_elevation(x as int, y as int, elevation);
                assert(self@.elevations[y as int] =~= after.elevations[y as int]);
                assert(self@.elevations =~= after.elevations);
                assert(self@.kinds =~= after.kinds);
                assert(self@.winds =~= after.winds);
            }
        }
    }

    /// The elevation of cell (x, y); zero outside the grid.
    pub fn get_elevation(&self, x: usize, y: usize) -> (elevation: u32)
        ensures
            elevation == self@.elevation(x as int, y as int),
    {
        proof {
            use_type_invariant(self);
        }
        if x < self.width && y < self.height {
            assert(self.elevation_map[y as int].len() == self.width);
            self.elevation_map[y][x]
        } else {
            0
        }
    }

    /// Sets the wind resistance of cell (x, y); does nothing outside the
    /// grid.
    pub fn set_wind_resistance(&mut self, x: usize, y: usize, resistance: u32)
        ensures
            final(self)@ == old(self)@.with_wind(x as int, y as int, resistance),
    {
        proof {
            use_type_invariant(&*self);
        }
        if x < self.width && y < self.height {
            set_cell(&mut self.wind_resistance, x, y, resistance);
            proof {
                let after = old(self)@.with_wind(x as int, y as int, resistance);
                assert(self@.winds[y as int] =~= after.winds[y as int]);
                assert(self@.winds =~= after.winds);
                assert(self@.kinds =~= after.kinds);
                assert(self@.elevations =~= after.elevations);
            }
        }
    }

    /// The wind resistance of cell (x, y); zero outside the grid.
    pub fn get_wind_resistance(&self, x: usize, y: usize) -> (resistance: u32)
        ensures
            resistance == self@.wind(x as int, y as int),
    {
        proof {
            use_type_invariant(self);
        }
        if x < self.width && y < self.height {
            assert(self.wind_resistance[y as int].len() == self.width);
            self.wind_resistance[y][x]
        } else {
            0
        }
    }

    /// Whether `pos` lies inside the grid.
    pub fn is_valid_position(&self, pos: &Point) -> (valid: bool)
        ensures
            valid == self@.contains(pos.x as int, pos.y as int),
    {
        pos.x >= 0 && pos.y >= 0 && (pos.x as usize) < self.width && (pos.y as usize) < self.height
    }

    /// Whether `pos` blocks traversal: it is an obstacle or lies outside
    /// the grid.
    pub fn is_obstacle(&self, pos: &Point) -> (blocked: bool)
        ensures
            blocked == (self@.kind(pos.x as int, pos.y as int) == TerrainType::Obstacle),
    {
        if !self.is_valid_position(pos) {
            return true;
        }
        self.get_terrain(pos.x as usize, pos.y as usize) == TerrainType::Obstacle
    }

    /// Whether `pos` lies inside the grid and is no obstacle.
    pub fn is_passable(&self, pos: &Point) -> (passable: bool)
        ensures
            passable == self@.passable(pos.x as int, pos.y as int),
    {
        self.is_valid_position(pos) && !self.is_obstacle(pos)
    }

    /// The cost of entering `pos`, in thousandths.
    pub fn get_movement_cost(&self, pos: &Point) -> (cost: u64)
        ensures
            cost == self@.movement_cost(pos.x as int, pos.y as int),
    {
        if !self.is_valid_position(pos) {
            return IMPASSABLE;
        }
        let x = pos.x as usize;
        let y = pos.y as usize;
        let base_cost: u64 = match self.get_terrain(x, y) {
            TerrainType::Normal => 1000,
            TerrainType::Hill => 3000,
            TerrainType::WindZone => 2000,
            TerrainType::Obstacle => IMPASSABLE,
            _ => 1000,
        };
        if base_cost >= IMPASSABLE {
            return base_cost;
        }
        let elevation = self.get_elevation(x, y) as u64;
        let wind = self.get_wind_resistance(x, y) as u64;
        base_cost + (5 * elevation + 3 * wind) / 10
    }

    /// The straight-line estimate of the distance between two cells, in
    /// millionths of a cell side, rounded down.
    pub fn get_heuristic_cost(&self, from: &Point, to: &Point) -> (estimate: u64)
        ensures
            estimate == estimated_distance(*from, *to),
            estimate * estimate <= 1_000_000_000_000 * squared_distance(*from, *to) < (estimate
                + 1) * (estimate + 1),
    {
        proof {
            lemma_floor_sqrt_bounds(1_000_000_000_000 * squared_distance(*from, *to));
        }
        isqrt(1_000_000_000_000 * squared_distance_of(from, to))
    }

    /// The passable cells next to `pos`, in the fixed direction order.
    pub fn get_neighbors(&self, pos: &Point) -> (neighbors: Vec<Point>)
        ensures
            neighbors@ == self@.neighbors(*pos),
            neighbors.len() <= 8,
            neighbors@.no_duplicates(),
            forall|q: Point| #[trigger]
                neighbors@.contains(q) <==> adjacent(*pos, q) && self@.passable(
                    q.x as int,
                    q.y as int,
                ),
    {
        proof {
            self@.lemma_neighbors(*pos);
        }
        let mut neighbors: Vec<Point> = Vec::new();
        let mut k: usize = 0;
        while k < 8
            invariant
                k <= 8,
                neighbors@ == self@.neighbors_among(*pos, k as nat),
            decreases 8 - k,
        {
            let (dx, dy) = direction_of(k);
            let x: i64 = pos.x as i64 + dx;
            let y: i64 = pos.y as i64 + dy;
            if x >= 0 && y >= 0 && x <= i32::MAX as i64 && y <= i32::MAX as i64 {
                let neighbor = Point::new(x as i32, y as i32);
                if self.is_passable(&neighbor) {
                    neighbors.push(neighbor);
                }
            }
            k += 1;
        }
        neighbors
    }

    /// Draws `path` over the terrain: one line per row and one character
    /// per cell, `S` where the path begins, `D` where it ends, `*` where
    /// it passes, and the symbol of the terrain elsewhere. A cell that the
    /// path visits more than once shows its last visit.
    pub fn visualize_path(&self, path: &Vec<Point>) -> (lines: Vec<String>)
        ensures
            lines.len() == self@.height,
            forall|y: int| 0 <= y < self@.height ==> (#[trigger] lines[y])@.len() == self@.width,
            forall|x: int, y: int|
                0 <= x < self@.width && 0 <= y < self@.height ==> (#[trigger] lines[y]@[x])
                    == self@.drawn(path@, x, y),
    {
        proof {
            use_type_invariant(self);
        }
        let mut visits: Vec<Vec<Option<usize>>> = filled_table(self.width, self.height, None);
        let mut i: usize = 0;
        while i < path.len()
            invariant
                i <= path.len(),
                visits.len() == self.height,
                forall|y: int| 0 <= y < self.height ==> (#[trigger] visits[y]).len() == self.width,
                forall|x: int, y: int|
                    0 <= x < self.width && 0 <= y < self.height && x <= i32::MAX && y <= i32::MAX
                        ==> (#[trigger] visits[y][x]) == last_visit(
                        path@,
                        Point { x: x as i32, y: y as i32 },
                        i as nat,
                    ),
            decreases path.len() - i,
        {
            let point = path[i];
            if self.is_valid_position(&point) {
                set_cell(&mut visits, point.x as usize, point.y as usize, Some(i));
            }
            i += 1;
        }
        let mut lines: Vec<String> = Vec::new();
        let mut y: usize = 0;
        while y < self.height
            invariant
                y <= self.height,
                self.well_formed(),
                visits.len() == self.height,
                forall|j: int| 0 <= j < self.height ==> (#[trigger] visits[j]).len() == self.width,
                forall|x: int, j: int|
                    0 <= x < self.width && 0 <= j < self.height && x <= i32::MAX && j <= i32::MAX
                        ==> (#[trigger] visits[j][x]) == last_visit(
                        path@,
                        Point { x: x as i32, y: j as i32 },
                        path.len() as nat,
                    ),
                lines.len() == y,
                forall|j: int| 0 <= j < y ==> (#[trigger] lines[j])@.len() == self.width,
                forall|x: int, j: int|
                    0 <= x < self.width && 0 <= j < y ==> (#[trigger] lines[j]@[x]) == self@.drawn(
                        path@,
                        x,
                        j,
                    ),
            decreases self.height - y,
        {
            let mut line = String::new();
            let mut x: usize = 0;
            while x < self.width
                invariant
                    x <= self.width,
                    y < self.height,
                    self.well_formed(),
                    visits.len() == self.height,
                    forall|j: int|
                        0 <= j < self.height ==> (#[trigger] visits[j]).len() == self.width,
                    forall|k: int, j: int|
                        0 <= k < self.width && 0 <= j < self.height && k <= i32::MAX && j
                            <= i32::MAX ==> (#[trigger] visits[j][k]) == last_visit(
                            path@,
                            Point { x: k as i32, y: j as i32 },
                            path.len() as nat,
                        ),
                    line@.len() == x,
                    forall|k: int| 0 <= k < x ==> #[trigger] line@[k] == self@.drawn(path@, k, y as int),
                decreases self.width - x,
            {
                assert(visits[y as int].len() == self.width);
                let visit = if x <= i32::MAX as usize && y <= i32::MAX as usize {
                    visits[y][x]
                } else {
                    None
                };
                let display_char = match visit {
                    Some(path_index) => {
                        if path_index == 0 {
                            'S'
                        } else if path_index == path.len() - 1 {
                            'D'
                        } else {
                            '*'
                        }
                    },
                    None => self.get_terrain_char(self.get_terrain(x, y)),
                };
                push_char(&mut line, display_char);
                x += 1;
            }
            lines.push(line);
            y += 1;
        }
        lines
    }

    /// The character that stands for a terrain class when a map is drawn.
    pub fn get_terrain_char(&self, terrain_type: TerrainType) -> (c: char)
        ensures
            c == symbol(terrain_type),
    {
        match terrain_type {
            TerrainType::Normal => '.',
            TerrainType::Hill => '^',
            TerrainType::Obstacle => 'O',
            TerrainType::WindZone => 'W',
            TerrainType::Start => 'S',
            TerrainType::End => 'D',
        }
    }
}

/// The offsets of the `k`-th neighbour direction.
fn direction_of(k: usize) -> (d: (i64, i64))
    requires
        k < 8,
    ensures
        d.0 == direction(k as int).0,
        d.1 == direction(k as int).1,
{
    match k {
        0 => (-1, -1),
        1 => (-1, 0),
        2 => (-1, 1),
        3 => (0, -1),
        4 => (0, 1),
        5 => (1, -1),
        6 => (1, 0),
        _ => (1, 1),
    }
}

/// The square of the straight-line distance between two cells.
pub(crate) fn squared_distance_of(a: &Point, b: &Point) -> (d: u128)
    ensures
        d == squared_distance(*a, *b),
        d <= 2 * 0xffff_ffff * 0xffff_ffff,
{
    let dx: i128 = b.x as i128 - a.x as i128;
    let dy: i128 = b.y as i128 - a.y as i128;
    assert(0 <= dx * dx <= 0xffff_ffff * 0xffff_ffff) by (nonlinear_arith)
        requires
            -0xffff_ffff <= dx <= 0xffff_ffff,
    ;
    assert(0 <= dy * dy <= 0xffff_ffff * 0xffff_ffff) by (nonlinear_arith)
        requires
            -0xffff_ffff <= dy <= 0xffff_ffff,
    ;
    (dx * dx + dy * dy) as u128
}

} // verus!
