//! Occupancy-grid storage and Bresenham ray tracing over grid cells.
//!
//! The grid stores one value per cell, row-major (`y * width + x`). What a
//! value means (log-odds of occupancy) and how it is updated is left to the
//! caller; this module decides which cells a read, a write or a ray touches.

use vstd::prelude::*;

verus! {

/// A ray over a `width` × `height` grid, cast from the robot cell
/// `(rx, ry)` to the beam's end cell `(ex, ey)`.
pub struct RayLine {
    pub width: int,
    pub height: int,
    pub rx: int,
    pub ry: int,
    pub ex: int,
    pub ey: int,
}

impl RayLine {
    /// Horizontal extent of the ray, `|ex - rx|`.
    pub open spec fn dx(self) -> int {
        if self.ex >= self.rx { self.ex - self.rx } else { self.rx - self.ex }
    }

    /// Vertical extent of the ray, `|ey - ry|`.
    pub open spec fn dy(self) -> int {
        if self.ey >= self.ry { self.ey - self.ry } else { self.ry - self.ey }
    }

    /// The cell reached after `px` horizontal and `py` vertical moves
    /// towards the end cell.
    pub open spec fn cell(self, px: int, py: int) -> (int, int) {
        (
            if self.ex > self.rx { self.rx + px } else { self.rx - px },
            if self.ey > self.ry { self.ry + py } else { self.ry - py },
        )
    }

    /// The end cell of the ray.
    pub open spec fn end(self) -> (int, int) {
        (self.ex, self.ey)
    }

    /// Bresenham's error term after `px` horizontal and `py` vertical moves.
    pub open spec fn err(self, px: int, py: int) -> int {
        self.dx() * (1 + py) - self.dy() * (1 + px)
    }

    /// Whether the step taken from `(px, py)` moves horizontally.
    pub open spec fn steps_x(self, px: int, py: int) -> bool {
        2 * self.err(px, py) > -self.dy()
    }

    /// Whether the step taken from `(px, py)` moves vertically.
    pub open spec fn steps_y(self, px: int, py: int) -> bool {
        2 * self.err(px, py) < self.dx()
    }

    /// Horizontal moves made after the step from `(px, py)`.
    pub open spec fn next_px(self, px: int, py: int) -> int {
        if self.steps_x(px, py) { px + 1 } else { px }
    }

    /// Vertical moves made after the step from `(px, py)`.
    pub open spec fn next_py(self, px: int, py: int) -> int {
        if self.steps_y(px, py) { py + 1 } else { py }
    }

    /// Whether a cell lies inside the grid.
    pub open spec fn in_grid(self, c: (int, int)) -> bool {
        0 <= c.0 < self.width && 0 <= c.1 < self.height
    }

    /// The cells a ray visits from the state `(px, py)` on: the cells
    /// passed on the way (to be marked free) and the cell where the beam
    /// ended inside the grid (to be marked occupied), if it did.
    /// The walk stops at the first cell outside the grid, or at the end
    /// cell, or when `fuel` runs out.
    pub open spec fn trace_from(self, px: int, py: int, fuel: nat) -> (Seq<(int, int)>, Option<(int, int)>)
        decreases fuel,
    {
        let c = self.cell(px, py);
        if fuel == 0 || !self.in_grid(c) {
            (Seq::empty(), None)
        } else if c == self.end() {
            (Seq::empty(), Some(c))
        } else {
            let rest = self.trace_from(self.next_px(px, py), self.next_py(px, py), (fuel - 1) as nat);
            (seq![c] + rest.0, rest.1)
        }
    }

    /// The cells the whole ray visits (free cells, then the hit cell).
    pub open spec fn trace(self) -> (Seq<(int, int)>, Option<(int, int)>) {
        self.trace_from(0, 0, (self.dx() + self.dy() + 1) as nat)
    }

    /// Horizontal distance from a cell to the end cell.
    pub open spec fn gap_x(self, c: (int, int)) -> int {
        if c.0 >= self.ex { c.0 - self.ex } else { self.ex - c.0 }
    }

    /// Vertical distance from a cell to the end cell.
    pub open spec fn gap_y(self, c: (int, int)) -> int {
        if c.1 >= self.ey { c.1 - self.ey } else { self.ey - c.1 }
    }

    /// `(px, py)` is a state the walk can be in: within the ray's bounding
    /// box, with the error term in the range the walk keeps it in.
    pub open spec fn reachable(self, px: int, py: int) -> bool {
        &&& 0 <= px <= self.dx()
        &&& 0 <= py <= self.dy()
        &&& -2 * self.dy() <= self.err(px, py) <= 2 * self.dx()
    }

    /// Every cell between the state `(px, py)` and the end cell lies in
    /// the grid.
    pub open spec fn box_in_grid(self, px: int, py: int) -> bool {
        forall|qx: int, qy: int|
            px <= qx <= self.dx() && py <= qy <= self.dy() ==> #[trigger] self.in_grid(self.cell(qx, qy))
    }

    /// Every cell a ray visits lies inside the grid, no cell it passes on
    /// the way is its end cell, and the cell it hits, if any, is its end cell.
    pub proof fn lemma_ray_cells_in_grid(self)
        ensures
            forall|i: int| 0 <= i < path_of(self.trace()).len() ==> self.in_grid(#[trigger] path_of(self.trace())[i]),
            forall|i: int| 0 <= i < self.trace().0.len() ==> #[trigger] self.trace().0[i] != self.end(),
            self.trace().1 matches Some(c) ==> c == self.end(),
    {
        self.lemma_start();
        self.lemma_walk(0, 0, (self.dx() + self.dy() + 1) as nat);
    }

    /// A ray whose robot cell and end cell both lie in the grid ends on its
    /// end cell: the end cell is the one marked occupied.
    pub proof fn lemma_ray_hits_end(self)
        requires
            self.in_grid((self.rx, self.ry)),
            self.in_grid(self.end()),
        ensures
            self.trace().1 == Some(self.end()),
    {
        assert forall|qx: int, qy: int|
            0 <= qx <= self.dx() && 0 <= qy <= self.dy() implies #[trigger] self.in_grid(self.cell(qx, qy)) by {}
        self.lemma_start();
        self.lemma_walk(0, 0, (self.dx() + self.dy() + 1) as nat);
    }

    /// A ray visits a cell exactly when its robot cell lies in the grid,
    /// and then the first cell it visits is the robot cell.
    pub proof fn lemma_ray_starts_at_robot(self)
        ensures
            path_of(self.trace()).len() > 0 <==> self.in_grid((self.rx, self.ry)),
            path_of(self.trace()).len() > 0 ==> path_of(self.trace())[0] == (self.rx, self.ry),
    {
        self.lemma_start();
        self.lemma_walk(0, 0, (self.dx() + self.dy() + 1) as nat);
    }

    /// A ray walks from cell to touching cell, never moves away from its
    /// end cell along either axis, and comes strictly closer at every step;
    /// so it visits no cell twice.
    pub proof fn lemma_ray_walks_to_end(self)
        ensures
            ({
                let s = path_of(self.trace());
                &&& forall|i: int| 0 <= i < s.len() - 1 ==> adjacent(#[trigger] s[i], s[i + 1])
                &&& forall|i: int, j: int| 0 <= i < j < s.len() ==> {
                        &&& self.gap_x(#[trigger] s[j]) <= self.gap_x(#[trigger] s[i])
                        &&& self.gap_y(s[j]) <= self.gap_y(s[i])
                        &&& self.gap_x(s[j]) + self.gap_y(s[j]) < self.gap_x(s[i]) + self.gap_y(s[i])
                    }
                &&& forall|i: int, j: int| 0 <= i < j < s.len() ==> #[trigger] s[i] != #[trigger] s[j]
            }),
    {
        self.lemma_start();
        self.lemma_walk(0, 0, (self.dx() + self.dy() + 1) as nat);
    }

    /// The walk starts in a reachable state, with error term `dx - dy`.
    pub proof fn lemma_start(self)
        ensures
            self.reachable(0, 0),
            self.err(0, 0) == self.dx() - self.dy(),
    {
        assert(self.dx() * (1 + 0) == self.dx()) by (nonlinear_arith);
        assert(self.dy() * (1 + 0) == self.dy()) by (nonlinear_arith);
    }

    /// The walk is on course at `(px, py)`: its error term lies in the band
    /// Bresenham's walk keeps it in. On course, the cell lies within half a
    /// cell of the straight line, and the next step moves along the ray's
    /// major axis (along both axes on a diagonal ray).
    pub open spec fn on_course(self, px: int, py: int) -> bool {
        if self.dx() == self.dy() {
            px == py
        } else if self.dx() > self.dy() {
            self.dx() - 2 * self.dy() <= 2 * self.err(px, py) <= 3 * self.dx() - 2 * self.dy()
        } else {
            2 * self.dx() - 3 * self.dy() <= 2 * self.err(px, py) <= 2 * self.dx() - self.dy()
        }
    }

    /// The longer of the ray's two extents.
    pub open spec fn major(self) -> int {
        if self.dx() >= self.dy() { self.dx() } else { self.dy() }
    }

    /// Horizontal distance from the robot cell to a cell.
    pub open spec fn run_x(self, c: (int, int)) -> int {
        if c.0 >= self.rx { c.0 - self.rx } else { self.rx - c.0 }
    }

    /// Vertical distance from the robot cell to a cell.
    pub open spec fn run_y(self, c: (int, int)) -> int {
        if c.1 >= self.ry { c.1 - self.ry } else { self.ry - c.1 }
    }

    /// How far a cell lies off the straight line from the robot cell to
    /// the end cell, scaled by the ray's extents: `dx * run_y - dy * run_x`.
    /// It is zero exactly on the line; divided by the major extent, it is
    /// the distance to the line along the minor axis.
    pub open spec fn offset(self, c: (int, int)) -> int {
        self.dx() * self.run_y(c) - self.dy() * self.run_x(c)
    }

    /// The walk starts on course.
    pub proof fn lemma_start_on_course(self)
        ensures
            self.on_course(0, 0),
    {
        self.lemma_start();
    }

    /// A cell the walk reaches on course lies within half a cell of the
    /// straight line, along the minor axis.
    pub proof fn lemma_on_line(self, px: int, py: int)
        requires
            self.reachable(px, py),
            self.on_course(px, py),
        ensures
            -self.major() <= 2 * self.offset(self.cell(px, py)) <= self.major(),
    {
        let c = self.cell(px, py);
        assert(self.run_x(c) == px);
        assert(self.run_y(c) == py);
        let dx = self.dx();
        let dy = self.dy();
        assert(dx * (1 + py) == dx + dx * py) by (nonlinear_arith);
        assert(dy * (1 + px) == dy + dy * px) by (nonlinear_arith);
        if dx == dy {
            assert(dx * py == dy * px);
        }
    }

    /// A step from a state on course moves along the major axis and leads
    /// to a state on course.
    pub proof fn lemma_course_step(self, px: int, py: int)
        requires
            self.reachable(px, py),
            self.on_course(px, py),
            self.cell(px, py) != self.end(),
        ensures
            self.on_course(self.next_px(px, py), self.next_py(px, py)),
            self.dx() >= self.dy() ==> self.next_px(px, py) == px + 1,
            self.dy() >= self.dx() ==> self.next_py(px, py) == py + 1,
    {
        self.lemma_step(px, py);
        if self.dx() == self.dy() {
            assert(self.err(px, py) == 0);
        }
    }

    /// From a state on course, every cell the walk visits lies within half
    /// a cell of the straight line.
    pub proof fn lemma_walk_on_line(self, px: int, py: int, fuel: nat)
        requires
            self.reachable(px, py),
            self.on_course(px, py),
            fuel >= (self.dx() - px) + (self.dy() - py) + 1,
        ensures
            ({
                let s = path_of(self.trace_from(px, py, fuel));
                forall|i: int| 0 <= i < s.len() ==> -self.major() <= 2 * self.offset(#[trigger] s[i]) <= self.major()
            }),
        decreases fuel,
    {
        let c = self.cell(px, py);
        let t = self.trace_from(px, py, fuel);
        let s = path_of(t);
        self.lemma_on_line(px, py);
        if !self.in_grid(c) {
            assert(s =~= Seq::<(int, int)>::empty());
        } else if c == self.end() {
            assert(s =~= seq![c]);
        } else {
            let nx: int = self.next_px(px, py);
            let ny: int = self.next_py(px, py);
            self.lemma_step(px, py);
            self.lemma_course_step(px, py);
            self.lemma_walk_on_line(nx, ny, (fuel - 1) as nat);
            let r = self.trace_from(nx, ny, (fuel - 1) as nat);
            let rs = path_of(r);
            assert(s =~= seq![c] + rs);
            assert forall|i: int| 0 <= i < s.len() implies -self.major() <= 2 * self.offset(#[trigger] s[i]) <= self.major() by {
                if i > 0 {
                    assert(s[i] == rs[i - 1]);
                }
            }
        }
    }

    /// Every cell a ray visits lies within half a cell of the straight line
    /// from its robot cell to its end cell, measured along the minor axis:
    /// `|dx * run_y - dy * run_x| <= max(dx, dy) / 2`.
    pub proof fn lemma_ray_follows_line(self)
        ensures
            ({
                let s = path_of(self.trace());
                forall|i: int| 0 <= i < s.len() ==> -self.major() <= 2 * self.offset(#[trigger] s[i]) <= self.major()
            }),
    {
        self.lemma_start();
        self.lemma_start_on_course();
        self.lemma_walk_on_line(0, 0, (self.dx() + self.dy() + 1) as nat);
    }

    /// From a state on course whose remaining cells all lie in the grid,
    /// the walk passes exactly as many cells as remain along the major
    /// axis before it hits the end cell.
    pub proof fn lemma_walk_length(self, px: int, py: int, fuel: nat)
        requires
            self.reachable(px, py),
            self.on_course(px, py),
            self.box_in_grid(px, py),
            fuel >= (self.dx() - px) + (self.dy() - py) + 1,
        ensures
            self.trace_from(px, py, fuel).0.len() == if self.dx() >= self.dy() {
                self.dx() - px
            } else {
                self.dy() - py
            },
        decreases fuel,
    {
        let c = self.cell(px, py);
        assert(self.in_grid(self.cell(px, py)));
        if c != self.end() {
            let nx: int = self.next_px(px, py);
            let ny: int = self.next_py(px, py);
            self.lemma_step(px, py);
            self.lemma_course_step(px, py);
            assert forall|qx: int, qy: int|
                nx <= qx <= self.dx() && ny <= qy <= self.dy() implies #[trigger] self.in_grid(self.cell(qx, qy)) by {
                assert(px <= qx && py <= qy);
            }
            self.lemma_walk_length(nx, ny, (fuel - 1) as nat);
        }
    }

    /// A ray whose robot cell and end cell both lie in the grid passes
    /// exactly `max(dx, dy)` cells before it hits its end cell.
    pub proof fn lemma_ray_length(self)
        requires
            self.in_grid((self.rx, self.ry)),
            self.in_grid(self.end()),
        ensures
            self.trace().0.len() == if self.dx() >= self.dy() { self.dx() } else { self.dy() },
    {
        self.lemma_start();
        self.lemma_start_on_course();
        assert forall|qx: int, qy: int|
            0 <= qx <= self.dx() && 0 <= qy <= self.dy() implies #[trigger] self.in_grid(self.cell(qx, qy)) by {}
        self.lemma_walk_length(0, 0, (self.dx() + self.dy() + 1) as nat);
    }

    /// From a reachable state that is not the end, one step leads to a
    /// reachable state and brings the walk closer to the end.
    pub proof fn lemma_step(self, px: int, py: int)
        requires
            self.reachable(px, py),
            self.cell(px, py) != self.end(),
        ensures
            self.reachable(self.next_px(px, py), self.next_py(px, py)),
            self.next_px(px, py) + self.next_py(px, py) >= px + py + 1,
            px <= self.next_px(px, py) <= px + 1,
            py <= self.next_py(px, py) <= py + 1,
            self.err(self.next_px(px, py), self.next_py(px, py)) == self.err(px, py)
                - (if self.steps_x(px, py) { self.dy() } else { 0 })
                + (if self.steps_y(px, py) { self.dx() } else { 0 }),
    {
        lemma_bresenham_step(self.dx(), self.dy(), px, py);
    }

    /// Facts about the walk from a reachable state with enough fuel.
    pub proof fn lemma_walk(self, px: int, py: int, fuel: nat)
        requires
            self.reachable(px, py),
            fuel >= (self.dx() - px) + (self.dy() - py) + 1,
        ensures
            ({
                let t = self.trace_from(px, py, fuel);
                let s = path_of(t);
                &&& forall|i: int| 0 <= i < s.len() ==> self.in_grid(#[trigger] s[i])
                &&& forall|i: int| 0 <= i < t.0.len() ==> #[trigger] t.0[i] != self.end()
                &&& (t.1 matches Some(c) ==> c == self.end())
                &&& (s.len() > 0 <==> self.in_grid(self.cell(px, py)))
                &&& (s.len() > 0 ==> s[0] == self.cell(px, py))
                &&& forall|i: int| 0 <= i < s.len() ==>
                        self.gap_x(#[trigger] s[i]) <= self.dx() - px && self.gap_y(s[i]) <= self.dy() - py
                &&& forall|i: int, j: int| 0 <= i < j < s.len() ==> {
                        &&& self.gap_x(#[trigger] s[j]) <= self.gap_x(#[trigger] s[i])
                        &&& self.gap_y(s[j]) <= self.gap_y(s[i])
                        &&& self.gap_x(s[j]) + self.gap_y(s[j]) < self.gap_x(s[i]) + self.gap_y(s[i])
                    }
                &&& forall|i: int| 0 <= i < s.len() - 1 ==> adjacent(#[trigger] s[i], s[i + 1])
                &&& (self.box_in_grid(px, py) ==> t.1 == Some(self.end()))
            }),
        decreases fuel,
    {
        let c = self.cell(px, py);
        let t = self.trace_from(px, py, fuel);
        let s = path_of(t);
        if !self.in_grid(c) {
            assert(s =~= Seq::<(int, int)>::empty());
        } else if c == self.end() {
            assert(s =~= seq![c]);
        } else {
            let nx: int = self.next_px(px, py);
            let ny: int = self.next_py(px, py);
            self.lemma_step(px, py);
            self.lemma_walk(nx, ny, (fuel - 1) as nat);
            let r = self.trace_from(nx, ny, (fuel - 1) as nat);
            let rs = path_of(r);
            assert(t == (seq![c] + r.0, r.1));
            assert(s =~= seq![c] + rs);
            assert(self.gap_x(c) == self.dx() - px);
            assert(self.gap_y(c) == self.dy() - py);
            if rs.len() > 0 {
                assert(rs[0] == self.cell(nx, ny));
                assert(adjacent(s[0], s[1]));
            }
            assert forall|i: int| 0 <= i < s.len() - 1 implies adjacent(#[trigger] s[i], s[i + 1]) by {
                if i > 0 {
                    assert(s[i] == rs[i - 1]);
                    assert(s[i + 1] == rs[i]);
                }
            }
            assert forall|i: int, j: int| 0 <= i < j < s.len() implies {
                &&& self.gap_x(#[trigger] s[j]) <= self.gap_x(#[trigger] s[i])
                &&& self.gap_y(s[j]) <= self.gap_y(s[i])
                &&& self.gap_x(s[j]) + self.gap_y(s[j]) < self.gap_x(s[i]) + self.gap_y(s[i])
            } by {
                assert(s[j] == rs[j - 1]);
                if i > 0 {
                    assert(s[i] == rs[i - 1]);
                }
            }
            assert forall|i: int| 0 <= i < s.len() implies
                self.gap_x(#[trigger] s[i]) <= self.dx() - px && self.gap_y(s[i]) <= self.dy() - py by {
                if i > 0 {
                    assert(s[i] == rs[i - 1]);
                }
            }
            assert forall|i: int| 0 <= i < s.len() implies self.in_grid(#[trigger] s[i]) by {
                if i > 0 {
                    assert(s[i] == rs[i - 1]);
                }
            }
            assert forall|i: int| 0 <= i < t.0.len() implies #[trigger] t.0[i] != self.end() by {
                if i > 0 {
                    assert(t.0[i] == r.0[i - 1]);
                }
            }
            if self.box_in_grid(px, py) {
                assert forall|qx: int, qy: int|
                    nx <= qx <= self.dx() && ny <= qy <= self.dy() implies #[trigger] self.in_grid(self.cell(qx, qy)) by {
                    assert(px <= qx && py <= qy);
                }
                assert(self.box_in_grid(nx, ny));
            }
        }
    }
}

/// Two cells are distinct and touch (by a side or a corner).
pub open spec fn adjacent(a: (int, int), b: (int, int)) -> bool {
    &&& a != b
    &&& -1 <= a.0 - b.0 <= 1
    &&& -1 <= a.1 - b.1 <= 1
}

/// The cells of a trace in the order they are visited: the free cells,
/// then the hit cell if there is one.
pub open spec fn path_of(t: (Seq<(int, int)>, Option<(int, int)>)) -> Seq<(int, int)> {
    match t.1 {
        Some(c) => t.0.push(c),
        None => t.0,
    }
}

/// One step of Bresenham's walk from a reachable state stays within the
/// ray's bounding box, makes progress, and keeps the error term bounded.
proof fn lemma_bresenham_step(dx: int, dy: int, px: int, py: int)
    requires
        0 <= px <= dx,
        0 <= py <= dy,
        !(px == dx && py == dy),
        -2 * dy <= dx * (1 + py) - dy * (1 + px) <= 2 * dx,
    ensures
        ({
            let err: int = dx * (1 + py) - dy * (1 + px);
            let sx = 2 * err > -dy;
            let sy = 2 * err < dx;
            let nx: int = if sx { px + 1 } else { px };
            let ny: int = if sy { py + 1 } else { py };
            &&& nx <= dx
            &&& ny <= dy
            &&& nx + ny >= px + py + 1
            &&& dx * (1 + ny) - dy * (1 + nx) == err - (if sx { dy } else { 0 }) + (if sy { dx } else { 0 })
            &&& -2 * dy <= dx * (1 + ny) - dy * (1 + nx) <= 2 * dx
        }),
{
    let err: int = dx * (1 + py) - dy * (1 + px);
    assert(dx * (1 + (py + 1)) == dx * (1 + py) + dx) by (nonlinear_arith);
    assert(dy * (1 + (px + 1)) == dy * (1 + px) + dy) by (nonlinear_arith);
    if px == dx {
        // No horizontal move is left: the error term forbids one.
        assert(dx * (1 + py) <= dx * dy) by (nonlinear_arith)
            requires 0 <= dx, 1 + py <= dy;
        assert(dy * (1 + px) == dy + dy * dx) by (nonlinear_arith)
            requires px == dx;
        assert(dx * dy == dy * dx) by (nonlinear_arith);
    }
    if py == dy {
        // No vertical move is left: the error term forbids one.
        assert(dy * (1 + px) <= dy * dx) by (nonlinear_arith)
            requires 0 <= dy, 1 + px <= dx;
        assert(dx * (1 + py) == dx + dx * dy) by (nonlinear_arith)
            requires py == dy;
        assert(dx * dy == dy * dx) by (nonlinear_arith);
    }
}

/// The cells a ray marks: the cells it passes (free) in the order it
/// passes them, then the cell where its beam ended inside the grid
/// (occupied), if it did.
pub struct RayTrace {
    pub free: Vec<(usize, usize)>,
    pub hit: Option<(usize, usize)>,
}

impl View for RayTrace {
    type V = (Seq<(int, int)>, Option<(int, int)>);

    open spec fn view(&self) -> (Seq<(int, int)>, Option<(int, int)>) {
        (
            self.free@.map_values(|c: (usize, usize)| (c.0 as int, c.1 as int)),
            match self.hit {
                Some(c) => Some((c.0 as int, c.1 as int)),
                None => None,
            },
        )
    }
}

/// The abstract content of a grid: its dimensions and its cells, row by
/// row (`y * width + x`).
pub struct GridModel<T> {
    pub width: nat,
    pub height: nat,
    pub cells: Seq<T>,
}

/// A `width` × `height` grid with one value of type `T` per cell.
pub struct OccupancyGrid<T> {
    width: usize,
    height: usize,
    cells: Vec<T>,
}

impl<T> View for OccupancyGrid<T> {
    type V = GridModel<T>;

    closed spec fn view(&self) -> GridModel<T> {
        GridModel { width: self.width as nat, height: self.height as nat, cells: self.cells@ }
    }
}

impl<T> OccupancyGrid<T> {
    /// Every grid holds exactly one value per cell.
    #[verifier::type_invariant]
    spec fn one_value_per_cell(self) -> bool {
        &&& self.cells@.len() == self.width * self.height
        &&& self.width * self.height <= usize::MAX
    }

    /// The grid holds exactly one value per cell.
    pub open spec fn wf(&self) -> bool {
        &&& self@.cells.len() == self@.width * self@.height
        &&& self@.width * self@.height <= usize::MAX
    }

    /// Position in the cell storage of the cell `(x, y)`.
    pub open spec fn index_of(&self, x: int, y: int) -> int {
        y * self@.width + x
    }

    /// Whether `(x, y)` is a cell of the grid.
    pub open spec fn contains(&self, x: int, y: int) -> bool {
        0 <= x < self@.width && 0 <= y < self@.height
    }

    /// The ray from `(rx, ry)` to `(ex, ey)` over this grid.
    pub open spec fn ray(&self, rx: int, ry: int, ex: int, ey: int) -> RayLine {
        RayLine { width: self@.width as int, height: self@.height as int, rx, ry, ex, ey }
    }

    /// Every cell of a well-formed grid has its own position in the cell
    /// storage: after writing a cell, reading it gives the written value
    /// back, and every other cell reads as before.
    pub proof fn lemma_write_then_read(&self, x: int, y: int, value: T, x2: int, y2: int)
        requires
            self.wf(),
            self.contains(x, y),
            self.contains(x2, y2),
        ensures
            0 <= self.index_of(x, y) < self@.cells.len(),
            self@.cells.update(self.index_of(x, y), value)[self.index_of(x, y)] == value,
            (x2, y2) != (x, y) ==> self@.cells.update(self.index_of(x, y), value)[self.index_of(x2, y2)]
                == self@.cells[self.index_of(x2, y2)],
    {
        let w: int = self@.width as int;
        let h: int = self@.height as int;
        lemma_cell_index(w, h, x, y);
        lemma_cell_index(w, h, x2, y2);
        if y < y2 {
            lemma_row_order(w, x, y, x2, y2);
        } else if y2 < y {
            lemma_row_order(w, x2, y2, x, y);
        }
    }

    /// Whether `(x, y)` is a cell of the grid.
    pub fn in_bounds(&self, x: usize, y: usize) -> (b: bool)
        ensures
            b == self.contains(x as int, y as int),
    {
        x < self.width && y < self.height
    }

    /// Number of columns.
    pub fn width(&self) -> (w: usize)
        ensures
            w == self@.width,
    {
        self.width
    }

    /// Number of rows.
    pub fn height(&self) -> (h: usize)
        ensures
            h == self@.height,
    {
        self.height
    }

    /// Sets the cell `(x, y)` to `value` when it lies in the grid; a cell
    /// outside the grid leaves the grid unchanged.
    pub fn update(&mut self, x: usize, y: usize, value: T)
        ensures
            final(self).wf(),
            final(self)@.width == old(self)@.width,
            final(self)@.height == old(self)@.height,
            final(self)@.cells == if old(self).contains(x as int, y as int) {
                old(self)@.cells.update(old(self).index_of(x as int, y as int), value)
            } else {
                old(self)@.cells
            },
    {
        proof {
            use_type_invariant(&*self);
        }
        if x < self.width && y < self.height {
            let mut grid = OccupancyGrid { width: 0, height: 0, cells: Vec::new() };
            std::mem::swap(&mut grid, self);
            let OccupancyGrid { width, height, mut cells } = grid;
            proof {
                assert(y * width + x < width * height) by (nonlinear_arith)
                    requires x < width, y < height;
            }
            let idx: usize = y * width + x;
            cells.set(idx, value);
            *self = OccupancyGrid { width, height, cells };
        }
    }
}

impl<T: Copy> OccupancyGrid<T> {
    /// A `width` × `height` grid with every cell set to `fill`.
    pub fn new(width: usize, height: usize, fill: T) -> (g: Self)
        requires
            width * height <= usize::MAX,
        ensures
            g.wf(),
            g@.width == width,
            g@.height == height,
            g@.cells == Seq::new((width * height) as nat, |i: int| fill),
    {
        let n: usize = width * height;
        let mut cells: Vec<T> = Vec::new();
        while cells.len() < n
            invariant
                cells.len() <= n,
                forall|i: int| 0 <= i < cells.len() ==> cells@[i] == fill,
            decreases n - cells.len(),
        {
            cells.push(fill);
        }
        let g = OccupancyGrid { width, height, cells };
        assert(g@.cells =~= Seq::new((width * height) as nat, |i: int| fill));
        g
    }

    /// The value stored at position `y * width + x`, if that position
    /// exists. A cell with `x >= width` thus reads a cell of a later row.
    pub fn cell(&self, x: usize, y: usize) -> (v: Option<T>)
        ensures
            self.wf(),
            v == if 0 <= self.index_of(x as int, y as int) < self@.cells.len() {
                Some(self@.cells[self.index_of(x as int, y as int)])
            } else {
                None::<T>
            },
    {
        proof {
            use_type_invariant(self);
        }
        match y.checked_mul(self.width) {
            None => {
                proof {
                    assert(y * self.width + x >= y * self.width);
                }
                None
            },
            Some(row) => match row.checked_add(x) {
                None => None,
                Some(idx) => {
                    if idx < self.cells.len() {
                        Some(self.cells[idx])
                    } else {
                        None
                    }
                },
            },
        }
    }

    /// Sets every cell to `fill`.
    pub fn reset(&mut self, fill: T)
        ensures
            final(self).wf(),
            final(self)@.width == old(self)@.width,
            final(self)@.height == old(self)@.height,
            final(self)@.cells == Seq::new(old(self)@.cells.len(), |i: int| fill),
    {
        proof {
            use_type_invariant(&*self);
        }
        let mut grid = OccupancyGrid { width: 0, height: 0, cells: Vec::new() };
        std::mem::swap(&mut grid, self);
        let OccupancyGrid { width, height, mut cells } = grid;
        let n: usize = cells.len();
        let mut i: usize = 0;
        while i < n
            invariant
                cells.len() == n,
                n == old(self)@.cells.len(),
                i <= n,
                forall|j: int| 0 <= j < i ==> cells@[j] == fill,
            decreases n - i,
        {
            cells.set(i, fill);
            i = i + 1;
        }
        *self = OccupancyGrid { width, height, cells };
        assert(self@.cells =~= Seq::new(old(self)@.cells.len(), |i: int| fill));
    }
}

impl<T> OccupancyGrid<T> {
    /// Brings a cell index into the grid: each coordinate is capped at the
    /// last column or row.
    pub fn clamp_to_grid(&self, cx: usize, cy: usize) -> (c: (usize, usize))
        requires
            self@.width > 0,
            self@.height > 0,
        ensures
            c.0 == if cx < self@.width { cx as int } else { self@.width - 1 },
            c.1 == if cy < self@.height { cy as int } else { self@.height - 1 },
            self.contains(c.0 as int, c.1 as int),
    {
        let x: usize = if cx < self.width - 1 { cx } else { self.width - 1 };
        let y: usize = if cy < self.height - 1 { cy } else { self.height - 1 };
        (x, y)
    }

    /// The cells a beam marks when cast from the robot cell `(rx, ry)` to
    /// the end cell `(ex, ey)`, walked with Bresenham's line algorithm:
    /// every cell passed is free; the end cell is occupied if the beam
    /// reaches it inside the grid; the walk stops at the first cell that
    /// lies outside the grid.
    pub fn trace_ray(&self, rx: usize, ry: usize, ex: usize, ey: usize) -> (t: RayTrace)
        requires
            rx <= i64::MAX,
            ry <= i64::MAX,
            ex <= i64::MAX,
            ey <= i64::MAX,
            3 * self.ray(rx as int, ry as int, ex as int, ey as int).dx() <= i64::MAX,
            3 * self.ray(rx as int, ry as int, ex as int, ey as int).dy() <= i64::MAX,
        ensures
            t@ == self.ray(rx as int, ry as int, ex as int, ey as int).trace(),
    {
        let ghost line = self.ray(rx as int, ry as int, ex as int, ey as int);
        let w: usize = self.width;
        let h: usize = self.height;
        let dx: i64 = if ex >= rx { (ex - rx) as i64 } else { (rx - ex) as i64 };
        let dy: i64 = if ey >= ry { (ey - ry) as i64 } else { (ry - ey) as i64 };
        let sx: i64 = if ex > rx { 1 } else { -1 };
        let sy: i64 = if ey > ry { 1 } else { -1 };
        let mut err: i64 = dx - dy;
        let mut x: i64 = rx as i64;
        let mut y: i64 = ry as i64;
        let mut free: Vec<(usize, usize)> = Vec::new();
        let ghost mut px: int = 0;
        let ghost mut py: int = 0;
        let ghost mut steps: int = 0;
        let ghost fuel0: nat = (line.dx() + line.dy() + 1) as nat;
        let ghost f = |c: (usize, usize)| (c.0 as int, c.1 as int);
        proof {
            line.lemma_start();
            line.lemma_start_on_course();
        }
        assert(free@.map_values(f) =~= Seq::<(int, int)>::empty());
        loop
            invariant
                line == self.ray(rx as int, ry as int, ex as int, ey as int),
                w as int == line.width,
                h as int == line.height,
                rx <= i64::MAX,
                ry <= i64::MAX,
                ex <= i64::MAX,
                ey <= i64::MAX,
                3 * line.dx() <= i64::MAX,
                3 * line.dy() <= i64::MAX,
                line.on_course(px, py),
                dx == line.dx(),
                dy == line.dy(),
                sx == (if ex > rx { 1int } else { -1int }),
                sy == (if ey > ry { 1int } else { -1int }),
                f == (|c: (usize, usize)| (c.0 as int, c.1 as int)),
                line.reachable(px, py),
                0 <= steps <= px + py,
                fuel0 == line.dx() + line.dy() + 1,
                (x as int, y as int) == line.cell(px, py),
                err == line.err(px, py),
                line.trace() == (
                    free@.map_values(f) + line.trace_from(px, py, (fuel0 - steps) as nat).0,
                    line.trace_from(px, py, (fuel0 - steps) as nat).1,
                ),
            decreases (line.dx() - px) + (line.dy() - py),
        {
            let ux: usize = x as usize;
            let uy: usize = y as usize;
            let ghost c = line.cell(px, py);
            let ghost rest = line.trace_from(line.next_px(px, py), line.next_py(px, py), (fuel0 - steps - 1) as nat);
            if ux >= w || uy >= h {
                assert(line.trace_from(px, py, (fuel0 - steps) as nat) == (Seq::<(int, int)>::empty(), None::<(int, int)>));
                assert(free@.map_values(f) + Seq::<(int, int)>::empty() =~= free@.map_values(f));
                return RayTrace { free, hit: None };
            }
            if ux == ex && uy == ey {
                assert(line.trace_from(px, py, (fuel0 - steps) as nat) == (Seq::<(int, int)>::empty(), Some(c)));
                assert(free@.map_values(f) + Seq::<(int, int)>::empty() =~= free@.map_values(f));
                return RayTrace { free, hit: Some((ux, uy)) };
            }
            assert(line.trace_from(px, py, (fuel0 - steps) as nat) == (seq![c] + rest.0, rest.1));
            let ghost before = free@;
            free.push((ux, uy));
            assert(free@.map_values(f) =~= before.map_values(f).push(c));
            assert(free@.map_values(f) + rest.0 =~= before.map_values(f) + (seq![c] + rest.0));
            proof {
                line.lemma_step(px, py);
                line.lemma_course_step(px, py);
            }
            let e2: i64 = 2 * err;
            if e2 > -dy {
                err = err - dy;
                x = x + sx;
                proof {
                    px = px + 1;
                }
            }
            if e2 < dx {
                err = err + dx;
                y = y + sy;
                proof {
                    py = py + 1;
                }
            }
            proof {
                steps = steps + 1;
            }
            if x < 0 || y < 0 {
                return RayTrace { free, hit: None };
            }
        }
    }
}

/// A cell of a `w` × `h` grid has a position below `w * h`.
proof fn lemma_cell_index(w: int, h: int, x: int, y: int)
    requires
        0 <= x < w,
        0 <= y < h,
    ensures
        0 <= y * w + x < w * h,
{
    assert(0 <= y * w + x < w * h) by (nonlinear_arith)
        requires 0 <= x < w, 0 <= y < h;
}

/// A cell of an earlier row comes before every cell of a later row.
proof fn lemma_row_order(w: int, x: int, y: int, x2: int, y2: int)
    requires
        0 <= x < w,
        0 <= x2 < w,
        0 <= y < y2,
    ensures
        y * w + x < y2 * w + x2,
{
    assert(y * w + x < y2 * w + x2) by (nonlinear_arith)
        requires 0 <= x < w, 0 <= x2 < w, 0 <= y < y2;
}

} // verus!
