//! Logic for the Game of Life simulation: regions of a conceptually infinite
//! plane, each backed by a finite buffer, and the world that steps them.

use vstd::prelude::*;

verus! {

use vstd::pervasive::VecAdditionalExecFns;

/// Each cell in the Game of Life world is either alive or dead, and this
/// is codified by only having the two enum variants.
#[derive(Debug, Copy, Clone, PartialEq, Eq, Structural)]
pub enum Cell {
    Dead,
    Alive,
}

impl Default for Cell {
    fn default() -> (r: Cell)
        ensures
            r == Cell::Dead,
    {
        Cell::Dead
    }
}

/// Different edges of a region.
pub enum Edge {
    X,
    Y,
    NegX,
    NegY,
}

/// The state of a 2D region of a Game of Life world.
/// The x y position is the -x -y corner of the region,
/// and the width and height grow in the positive x and y direction.
/// The buffer is indexed by local coordinates: `state[wx - x][wy - y]`.
pub struct Region {
    pub x: isize,
    pub y: isize,
    pub width: usize,
    pub height: usize,
    pub state: Vec<Vec<Cell>>,
}

impl Region {
    /// The buffer always holds exactly `width` columns of `height` cells.
    pub open spec fn wf(self) -> bool {
        &&& self.state@.len() == self.width
        &&& forall|i: int|
            0 <= i < self.state@.len() ==> (#[trigger] self.state@[i])@.len() == self.height
    }

    /// The rectangle `[x, x+width) x [y, y+height)` covers this world coordinate.
    pub open spec fn covers(self, wx: int, wy: int) -> bool {
        &&& self.x <= wx < self.x as int + self.width as int
        &&& self.y <= wy < self.y as int + self.height as int
    }

    /// The far corner stays representable: a region whose bounds arithmetic
    /// would overflow contains no coordinate at all.
    pub open spec fn fits(self) -> bool {
        &&& self.x as int + self.width as int <= isize::MAX as int
        &&& self.y as int + self.height as int <= isize::MAX as int
    }

    /// A world coordinate counts as inside the region only when the bounds
    /// arithmetic stays representable.
    pub open spec fn in_bounds(self, wx: int, wy: int) -> bool {
        self.fits() && self.covers(wx, wy)
    }

    /// The stored cell at a world coordinate (meaningful when covered).
    pub open spec fn cell_at(self, wx: int, wy: int) -> Cell {
        self.state@[wx - self.x as int]@[wy - self.y as int]
    }

    /// What the region shows for each world coordinate: a cell for the
    /// coordinates it contains, absence for every other.
    pub open spec fn view_at(self, wx: int, wy: int) -> Option<Cell> {
        if self.in_bounds(wx, wy) {
            Some(self.cell_at(wx, wy))
        } else {
            None
        }
    }

    /// Create a new all dead region.
    pub fn new(x: isize, y: isize, width: usize, height: usize) -> (r: Region)
        ensures
            r.wf(),
            r.x == x,
            r.y == y,
            r.width == width,
            r.height == height,
            forall|wx: int, wy: int| r.covers(wx, wy) ==> r.cell_at(wx, wy) == Cell::Dead,
    {
        let state = dead_grid(width, height);
        Region { x, y, width, height, state }
    }

    /// Check if a position is in the bounds of this region.
    pub fn pos_in_bounds(&self, x: isize, y: isize) -> (r: bool)
        ensures
            r == self.in_bounds(x as int, y as int),
    {
        if x < self.x {
            return false;
        }
        if y < self.y {
            return false;
        }
        match self.x.checked_add_unsigned(self.width) {
            Some(num) => {
                if x >= num {
                    return false;
                }
            },
            None => {
                return false;
            },
        }
        match self.y.checked_add_unsigned(self.height) {
            Some(num) => {
                if y >= num {
                    return false;
                }
            },
            None => {
                return false;
            },
        }
        // All bound checks passed
        true
    }

    /// Where a contained world coordinate lands in the local buffer.
    pub open spec fn local_at(self, wx: int, wy: int) -> Option<(usize, usize)> {
        if self.in_bounds(wx, wy) {
            Some(((wx - self.x as int) as usize, (wy - self.y as int) as usize))
        } else {
            None
        }
    }

    /// Turn world coordinates into local coordinates within this region's internal buffer.
    pub fn pos_to_local(&self, x: isize, y: isize) -> (r: Option<(usize, usize)>)
        ensures
            r == self.local_at(x as int, y as int),
    {
        if !self.pos_in_bounds(x, y) {
            return None;
        }
        let lx: i128 = x as i128 - self.x as i128;
        let ly: i128 = y as i128 - self.y as i128;
        Some((lx as usize, ly as usize))
    }

    /// Returns the state of the cell at the given coordinates.
    /// If the position is outside of this region, returns [`None`].
    pub fn get_cell(&self, x: isize, y: isize) -> (r: Option<Cell>)
        requires
            self.wf(),
        ensures
            r == self.view_at(x as int, y as int),
    {
        match self.pos_to_local(x, y) {
            None => None,
            Some((lx, ly)) => Some(self.state[lx][ly]),
        }
    }

    /// Set the state of a specific cell.
    /// The x y position is in world coordinates, not the local coordinates of the region.
    /// If the x y position is outside this region, this function will fail silently.
    pub fn set_cell(&mut self, x: isize, y: isize, state: Cell)
        requires
            old(self).wf(),
        ensures
            final(self).wf(),
            set_result(*old(self), *final(self), x as int, y as int, state),
    {
        if !self.pos_in_bounds(x, y) {
            return;
        }
        let (lx, ly) = match self.pos_to_local(x, y) {
            Some(p) => p,
            None => {
                return;
            },
        };
        self.state[lx][ly] = state;
        assert forall|wx: int, wy: int| #[trigger] self.view_at(wx, wy) == (if old(self).in_bounds(
            x as int,
            y as int,
        ) && wx == x as int && wy == y as int {
            Some(state)
        } else {
            old(self).view_at(wx, wy)
        }) by {
            assert(self.state@[lx as int]@ == old(self).state@[lx as int]@.update(
                ly as int,
                state,
            ));
        }
    }

    /// Replace the window by `[nx, nx+nw) x [ny, ny+nh)`, keeping every cell
    /// that stays in view at its world coordinate and filling the rest dead.
    fn apply_window(&mut self, nx: isize, ny: isize, nw: usize, nh: usize)
        requires
            old(self).wf(),
        ensures
            final(self).wf(),
            final(self).x == nx,
            final(self).y == ny,
            final(self).width == nw,
            final(self).height == nh,
            window_transfer(*old(self), *final(self)),
    {
        let off_x: i128 = nx as i128 - self.x as i128;
        let off_y: i128 = ny as i128 - self.y as i128;
        let g = shifted_grid(&self.state, self.height, nw, nh, off_x, off_y);
        self.x = nx;
        self.y = ny;
        self.width = nw;
        self.height = nh;
        self.state = g;
        assert forall|wx: int, wy: int| self.covers(wx, wy) implies #[trigger] self.cell_at(
            wx,
            wy,
        ) == (if old(self).covers(wx, wy) {
            old(self).cell_at(wx, wy)
        } else {
            Cell::Dead
        }) by {
            let i = wx - self.x as int;
            let j = wy - self.y as int;
            assert(self.state@[i]@[j] == (if 0 <= i + off_x && i + off_x < old(
                self,
            ).state@.len() && 0 <= j + off_y && j + off_y < old(self).height {
                old(self).state@[i + off_x]@[j + off_y]
            } else {
                Cell::Dead
            }));
        }
    }

    /// Change the size of the region by moving the specified edge.
    /// The amount value is the change in size, not position of the chosen edge.
    /// As such, a positive value even on a negative edge (such as [`Edge::NegX`] or [`Edge::NegY`])
    /// will result in them moving further in the negative direction.
    /// New space is filled with [`Cell::Dead`], while reducing the size truncates the cells.
    /// If adjusting the edges [`Edge::NegX`] or [`Edge::NegY`], the position will be adjusted accordingly.
    pub fn adjust_size(&mut self, edge: Edge, amount: isize)
        requires
            old(self).wf(),
            edge is NegX ==> isize::MIN as int <= old(self).x as int - amount as int
                <= isize::MAX as int,
            edge is NegY ==> isize::MIN as int <= old(self).y as int - amount as int
                <= isize::MAX as int,
        ensures
            final(self).wf(),
            window_transfer(*old(self), *final(self)),
            (match edge {
                Edge::X => {
                    &&& final(self).x == old(self).x
                    &&& final(self).y == old(self).y
                    &&& final(self).width as int == clamped_size(
                        old(self).width as int,
                        amount as int,
                    )
                    &&& final(self).height == old(self).height
                },
                Edge::Y => {
                    &&& final(self).x == old(self).x
                    &&& final(self).y == old(self).y
                    &&& final(self).width == old(self).width
                    &&& final(self).height as int == clamped_size(
                        old(self).height as int,
                        amount as int,
                    )
                },
                Edge::NegX => {
                    &&& final(self).x as int == old(self).x as int - amount as int
                    &&& final(self).y == old(self).y
                    &&& final(self).width as int == clamped_size(
                        old(self).width as int,
                        amount as int,
                    )
                    &&& final(self).height == old(self).height
                },
                Edge::NegY => {
                    &&& final(self).x == old(self).x
                    &&& final(self).y as int == old(self).y as int - amount as int
                    &&& final(self).width == old(self).width
                    &&& final(self).height as int == clamped_size(
                        old(self).height as int,
                        amount as int,
                    )
                },
            }),
    {
        match edge {
            Edge::X => {
                let nw = sat_add_size(self.width, amount);
                let nh = self.height;
                let nx = self.x;
                let ny = self.y;
                self.apply_window(nx, ny, nw, nh);
            },
            Edge::Y => {
                let nw = self.width;
                let nh = sat_add_size(self.height, amount);
                let nx = self.x;
                let ny = self.y;
                self.apply_window(nx, ny, nw, nh);
            },
            Edge::NegX => {
                let nw = sat_add_size(self.width, amount);
                let nh = self.height;
                let nx = ((self.x as i128) - (amount as i128)) as isize;
                let ny = self.y;
                self.apply_window(nx, ny, nw, nh);
            },
            Edge::NegY => {
                let nw = self.width;
                let nh = sat_add_size(self.height, amount);
                let nx = self.x;
                let ny = ((self.y as i128) - (amount as i128)) as isize;
                self.apply_window(nx, ny, nw, nh);
            },
        }
    }

    /// Move the region by the given amount in the x and y directions.
    /// New cells will be filled with [`Cell::Dead`], and old cells will be truncated.
    pub fn move_region(&mut self, x: isize, y: isize)
        requires
            old(self).wf(),
            isize::MIN as int <= old(self).x as int + x as int <= isize::MAX as int,
            isize::MIN as int <= old(self).y as int + y as int <= isize::MAX as int,
        ensures
            final(self).wf(),
            translate_result(*old(self), *final(self), x as int, y as int),
    {
        let nx = ((self.x as i128) + (x as i128)) as isize;
        let ny = ((self.y as i128) + (y as i128)) as isize;
        let nw = self.width;
        let nh = self.height;
        self.apply_window(nx, ny, nw, nh);
    }

    /// Fill any overlapping space in the provided region with this regions state.
    /// Other cells are ignored and unaffected.
    pub fn populate_overlap(&self, other: &mut Region)
        requires
            self.wf(),
            old(other).wf(),
        ensures
            final(other).wf(),
            final(other).x == old(other).x,
            final(other).y == old(other).y,
            final(other).width == old(other).width,
            final(other).height == old(other).height,
            forall|wx: int, wy: int|
                #[trigger] final(other).view_at(wx, wy) == (if overlapping(*self, *old(other))
                    && self.in_bounds(wx, wy) && old(other).in_bounds(wx, wy) {
                    Some(self.cell_at(wx, wy))
                } else {
                    old(other).view_at(wx, wy)
                }),
    {
        // Check it is in bounds before doing further calculations
        if !self.is_overlapping(other) {
            return;
        }
        // A region whose bounds arithmetic overflows contains nothing: every
        // write would be out of bounds, so there is nothing to copy into.
        let end_x: i128 = (other.x as i128) + (other.width as i128);
        let end_y: i128 = (other.y as i128) + (other.height as i128);
        if end_x > (isize::MAX as i128) || end_y > (isize::MAX as i128) {
            return;
        }
        // Iterate through coordinates in other and try to get cell from this
        let w = other.width;
        let h = other.height;
        let mut lx: usize = 0;
        while lx < w
            invariant
                self.wf(),
                other.wf(),
                lx <= w,
                other.x == old(other).x,
                other.y == old(other).y,
                other.width == old(other).width,
                other.height == old(other).height,
                w == other.width,
                h == other.height,
                other.fits(),
                overlapping(*self, *old(other)),
                forall|wx: int, wy: int|
                    #[trigger] other.view_at(wx, wy) == (if wx - other.x < lx && self.in_bounds(
                        wx,
                        wy,
                    ) && old(other).in_bounds(wx, wy) {
                        Some(self.cell_at(wx, wy))
                    } else {
                        old(other).view_at(wx, wy)
                    }),
            decreases w - lx,
        {
            let wx: isize = ((other.x as i128) + (lx as i128)) as isize;
            let mut ly: usize = 0;
            while ly < h
                invariant
                    self.wf(),
                    other.wf(),
                    lx < w,
                    ly <= h,
                    other.x == old(other).x,
                    other.y == old(other).y,
                    other.width == old(other).width,
                    other.height == old(other).height,
                    w == other.width,
                    h == other.height,
                    other.fits(),
                    overlapping(*self, *old(other)),
                    wx as int == other.x as int + lx as int,
                    forall|wx2: int, wy2: int|
                        #[trigger] other.view_at(wx2, wy2) == (if (wx2 - other.x < lx || (wx2
                            - other.x == lx && wy2 - other.y < ly)) && self.in_bounds(wx2, wy2)
                            && old(other).in_bounds(wx2, wy2) {
                            Some(self.cell_at(wx2, wy2))
                        } else {
                            old(other).view_at(wx2, wy2)
                        }),
                decreases h - ly,
            {
                let wy: isize = ((other.y as i128) + (ly as i128)) as isize;
                match self.get_cell(wx, wy) {
                    Some(cell) => {
                        other.set_cell(wx, wy, cell);
                    },
                    None => {},
                }
                ly += 1;
            }
            lx += 1;
        }
    }

    /// Check if another region overlaps this one.
    pub fn is_overlapping(&self, other: &Region) -> (r: bool)
        ensures
            r == overlapping(*self, *other),
    {
        // If at least one corner is in bounds, then it is overlapping
        if self.contains_region_corners(other) {
            return true;
        }
        // If other completely wraps around this region, above won't work in this direction
        // so check in other direction too
        if other.contains_region_corners(self) {
            return true;
        }
        // No corner was inbounds, so no overlap
        false
    }

    /// Checks if any of the corners of the other region are contained within this region.
    pub fn contains_region_corners(&self, other: &Region) -> (r: bool)
        ensures
            r == contains_corners(*self, *other),
    {
        let fx128: i128 = {
            let end: i128 = (other.x as i128) + (other.width as i128);
            (if end > (isize::MAX as i128) {
                isize::MAX as i128
            } else {
                end
            }) - 1
        };
        let fy128: i128 = {
            let end: i128 = (other.y as i128) + (other.height as i128);
            (if end > (isize::MAX as i128) {
                isize::MAX as i128
            } else {
                end
            }) - 1
        };
        // A corner that falls below isize::MIN lies left of every region.
        let c1: bool = self.pos_in_bounds(other.x, other.y);
        let c2: bool = if fy128 >= (isize::MIN as i128) {
            self.pos_in_bounds(other.x, fy128 as isize)
        } else {
            false
        };
        let c3: bool = if fx128 >= (isize::MIN as i128) {
            self.pos_in_bounds(fx128 as isize, other.y)
        } else {
            false
        };
        let c4: bool = if fx128 >= (isize::MIN as i128) && fy128 >= (isize::MIN as i128) {
            self.pos_in_bounds(fx128 as isize, fy128 as isize)
        } else {
            false
        };
        c1 || c2 || c3 || c4
    }

    // GETTERS
    // Convenience accessors for the geometry fields.
    pub fn x(&self) -> (r: isize)
        ensures
            r == self.x,
    {
        self.x
    }

    pub fn y(&self) -> (r: isize)
        ensures
            r == self.y,
    {
        self.y
    }

    pub fn width(&self) -> (r: usize)
        ensures
            r == self.width,
    {
        self.width
    }

    pub fn height(&self) -> (r: usize)
        ensures
            r == self.height,
    {
        self.height
    }
}

/// A region yields local coordinates for exactly the world coordinates it
/// contains: `contains` and `to_local` agree everywhere.
pub proof fn lemma_contains_iff_local(r: Region, x: int, y: int)
    ensures
        r.in_bounds(x, y) == (r.local_at(x, y) is Some),
{
}

/// For a contained world coordinate, adding the anchor back onto the local
/// pair returns exactly the original world coordinate.
pub proof fn lemma_local_round_trip(r: Region, x: int, y: int)
    requires
        r.in_bounds(x, y),
    ensures
        r.local_at(x, y) is Some,
        r.local_at(x, y)->Some_0.0 as int + r.x as int == x,
        r.local_at(x, y)->Some_0.1 as int + r.y as int == y,
{
}

/// A coordinate plus a size, saturated at the largest representable coordinate.
pub open spec fn sat_end(x: int, w: int) -> int {
    if x + w > isize::MAX as int {
        isize::MAX as int
    } else {
        x + w
    }
}

/// Whether any of the four corners of `b`'s rectangle lies inside `a`.
/// The far corners are taken from the saturated far ends, as the bounds of an
/// empty or overflowing rectangle have no exact representable corner.
pub open spec fn contains_corners(a: Region, b: Region) -> bool {
    let fx = sat_end(b.x as int, b.width as int) - 1;
    let fy = sat_end(b.y as int, b.height as int) - 1;
    ||| a.in_bounds(b.x as int, b.y as int)
    ||| a.in_bounds(b.x as int, fy)
    ||| a.in_bounds(fx, b.y as int)
    ||| a.in_bounds(fx, fy)
}

/// Two regions overlap when either holds a corner of the other. The check runs
/// in both directions because one region can surround the other completely
/// without containing any of its corners in the one-direction test.
pub open spec fn overlapping(a: Region, b: Region) -> bool {
    contains_corners(a, b) || contains_corners(b, a)
}

/// Overlap is symmetric: checking a against b gives the same answer as
/// checking b against a.
pub proof fn lemma_overlapping_symmetric(a: Region, b: Region)
    ensures
        overlapping(a, b) == overlapping(b, a),
{
}

/// The cells a new window shows after a resize or a move: cells that stay in
/// view keep their value at the same world coordinate, the rest are dead.
pub open spec fn window_transfer(r0: Region, r1: Region) -> bool {
    forall|wx: int, wy: int|
        r1.covers(wx, wy) ==> #[trigger] r1.cell_at(wx, wy) == (if r0.covers(wx, wy) {
            r0.cell_at(wx, wy)
        } else {
            Cell::Dead
        })
}

/// A size changed by a signed amount, saturated to the representable range.
pub open spec fn clamped_size(w: int, amount: int) -> int {
    if w + amount < 0 {
        0
    } else if w + amount > usize::MAX as int {
        usize::MAX as int
    } else {
        w + amount
    }
}

/// How a region looks after `move_region(dx, dy)`: the same window shifted by
/// `(dx, dy)`, cells still in view unchanged, newly exposed cells dead.
pub open spec fn translate_result(r0: Region, r1: Region, dx: int, dy: int) -> bool {
    &&& r1.x as int == r0.x as int + dx
    &&& r1.y as int == r0.y as int + dy
    &&& r1.width == r0.width
    &&& r1.height == r0.height
    &&& window_transfer(r0, r1)
}

/// Moving a region and then moving it back restores the original anchor;
/// cells that stayed in view through both moves keep their values, while the
/// cells vacated by the first move come back dead: they are not remembered.
pub proof fn lemma_translate_round_trip(r0: Region, r1: Region, r2: Region, dx: int, dy: int)
    requires
        translate_result(r0, r1, dx, dy),
        translate_result(r1, r2, -dx, -dy),
    ensures
        r2.x == r0.x,
        r2.y == r0.y,
        r2.width == r0.width,
        r2.height == r0.height,
        forall|wx: int, wy: int|
            r2.covers(wx, wy) ==> #[trigger] r2.cell_at(wx, wy) == (if r1.covers(wx, wy) {
                r0.cell_at(wx, wy)
            } else {
                Cell::Dead
            }),
{
    assert forall|wx: int, wy: int| r2.covers(wx, wy) implies #[trigger] r2.cell_at(wx, wy) == (
    if r1.covers(wx, wy) {
        r0.cell_at(wx, wy)
    } else {
        Cell::Dead
    }) by {
        assert(r0.covers(wx, wy));
        assert(r2.cell_at(wx, wy) == (if r1.covers(wx, wy) {
            r1.cell_at(wx, wy)
        } else {
            Cell::Dead
        }));
    }
}

/// A size changed by a signed amount, saturating at the ends of `usize`.
fn sat_add_size(w: usize, amount: isize) -> (r: usize)
    ensures
        r as int == clamped_size(w as int, amount as int),
{
    if amount >= 0 {
        let a = amount as usize;
        if w <= usize::MAX - a {
            w + a
        } else {
            usize::MAX
        }
    } else {
        let am: i128 = -(amount as i128);
        if (w as i128) >= am {
            ((w as i128) - am) as usize
        } else {
            0
        }
    }
}

/// A `new_w` by `new_h` buffer `g` with `g[i][j]` taken from
/// `state[i + off_x][j + off_y]` where that source exists, dead elsewhere.
fn shifted_grid(
    state: &Vec<Vec<Cell>>,
    old_h: usize,
    new_w: usize,
    new_h: usize,
    off_x: i128,
    off_y: i128,
) -> (g: Vec<Vec<Cell>>)
    requires
        forall|i: int|
            0 <= i < state@.len() ==> (#[trigger] state@[i])@.len() == old_h,
        -0x20000000000000000 <= off_x as int <= 0x20000000000000000,
        -0x20000000000000000 <= off_y as int <= 0x20000000000000000,
    ensures
        g@.len() == new_w,
        forall|i: int| 0 <= i < new_w ==> (#[trigger] g@[i])@.len() == new_h,
        forall|i: int, j: int|
            0 <= i < new_w && 0 <= j < new_h ==> #[trigger] g@[i]@[j] == (if 0 <= i + (off_x as int)
                && i + (off_x as int) < state@.len() && 0 <= j + (off_y as int) && j + (off_y as int)
                < old_h {
                state@[i + (off_x as int)]@[j + (off_y as int)]
            } else {
                Cell::Dead
            }),
{
    let mut g: Vec<Vec<Cell>> = Vec::new();
    let mut i: usize = 0;
    while i < new_w
        invariant
            i <= new_w,
            g@.len() == i,
            forall|a: int|
                0 <= a < state@.len() ==> (#[trigger] state@[a])@.len() == old_h,
            -0x20000000000000000 <= off_x as int <= 0x20000000000000000,
            -0x20000000000000000 <= off_y as int <= 0x20000000000000000,
            forall|a: int| 0 <= a < i ==> (#[trigger] g@[a])@.len() == new_h,
            forall|a: int, b: int|
                0 <= a < i && 0 <= b < new_h ==> #[trigger] g@[a]@[b] == (if 0 <= a + (off_x as int)
                    && a + (off_x as int) < state@.len() && 0 <= b + (off_y as int) && b + (off_y as int)
                    < old_h {
                    state@[a + (off_x as int)]@[b + (off_y as int)]
                } else {
                    Cell::Dead
                }),
        decreases new_w - i,
    {
        let src_i: i128 = (i as i128) + off_x;
        let col_in_range: bool = 0 <= src_i && src_i < (state.len() as i128);
        let mut col: Vec<Cell> = Vec::new();
        let mut j: usize = 0;
        while j < new_h
            invariant
                j <= new_h,
                col@.len() == j,
                forall|a: int|
                    0 <= a < state@.len() ==> (#[trigger] state@[a])@.len() == old_h,
                -0x20000000000000000 <= off_y as int <= 0x20000000000000000,
                src_i as int == i as int + off_x as int,
                col_in_range == (0 <= (src_i as int) && (src_i as int) < state@.len()),
                forall|b: int|
                    0 <= b < j ==> #[trigger] col@[b] == (if 0 <= i as int + (off_x as int) && i as int
                        + (off_x as int) < state@.len() && 0 <= b + (off_y as int) && b + (off_y as int)
                        < old_h {
                        state@[i as int + (off_x as int)]@[b + (off_y as int)]
                    } else {
                        Cell::Dead
                    }),
            decreases new_h - j,
        {
            let src_j: i128 = (j as i128) + off_y;
            let c: Cell = if col_in_range && 0 <= src_j && src_j < (old_h as i128) {
                let sl: usize = state.len();
                proof {
                    assert(0 <= (src_i as int) && (src_i as int) < sl as int);
                    assert(0 <= (src_j as int) && (src_j as int) < old_h as int);
                }
                let a: usize = src_i as usize;
                let b: usize = src_j as usize;
                assert(a as int == src_i as int);
                assert(b as int == src_j as int);
                state[a][b]
            } else {
                Cell::Dead
            };
            col.push(c);
            j += 1;
        }
        g.push(col);
        i += 1;
    }
    g
}

/// How a region looks after `set_cell(x, y, c)`: the same window, with the
/// one contained coordinate now showing `c` and every other coordinate as before.
pub open spec fn set_result(r0: Region, r1: Region, x: int, y: int, c: Cell) -> bool {
    &&& r1.x == r0.x
    &&& r1.y == r0.y
    &&& r1.width == r0.width
    &&& r1.height == r0.height
    &&& forall|wx: int, wy: int|
        #[trigger] r1.view_at(wx, wy) == (if r0.in_bounds(x, y) && wx == x && wy == y {
            Some(c)
        } else {
            r0.view_at(wx, wy)
        })
}

/// Setting a cell and then reading it back returns the value just set when
/// the coordinate is inside the region; an out-of-bounds write leaves every
/// readable cell exactly as it was.
pub proof fn lemma_set_then_get(r0: Region, r1: Region, x: int, y: int, c: Cell)
    requires
        set_result(r0, r1, x, y, c),
    ensures
        r0.in_bounds(x, y) ==> r1.view_at(x, y) == Some(c),
        !r0.in_bounds(x, y) ==> r1.view_at(x, y) == r0.view_at(x, y),
        forall|wx: int, wy: int|
            wx != x || wy != y ==> #[trigger] r1.view_at(wx, wy) == r0.view_at(wx, wy),
{
}

/// All regions of a world have well formed buffers.
pub open spec fn world_wf(regions: Seq<Region>) -> bool {
    forall|i: int| 0 <= i < regions.len() ==> (#[trigger] regions[i]).wf()
}

/// What a collection of regions shows at a world coordinate: the first region
/// in order that contains the coordinate answers, absence when none does.
pub open spec fn world_view_at(regions: Seq<Region>, wx: int, wy: int) -> Option<Cell>
    decreases regions.len(),
{
    if regions.len() == 0 {
        None
    } else {
        match regions[0].view_at(wx, wy) {
            Some(c) => Some(c),
            None => world_view_at(regions.drop_first(), wx, wy),
        }
    }
}

/// The cell the whole world shows: dead wherever no region answers.
pub open spec fn world_cell(regions: Seq<Region>, wx: int, wy: int) -> Cell {
    match world_view_at(regions, wx, wy) {
        Some(c) => c,
        None => Cell::Dead,
    }
}

/// Some region of the world contains the coordinate.
pub open spec fn world_covers(regions: Seq<Region>, wx: int, wy: int) -> bool {
    exists|i: int| 0 <= i < regions.len() && (#[trigger] regions[i]).in_bounds(wx, wy)
}

/// A world answers with a cell exactly where some region contains the coordinate.
pub proof fn lemma_world_view_covers(regions: Seq<Region>, wx: int, wy: int)
    ensures
        (world_view_at(regions, wx, wy) is Some) == world_covers(regions, wx, wy),
    decreases regions.len(),
{
    if regions.len() > 0 {
        lemma_world_view_covers(regions.drop_first(), wx, wy);
        if regions[0].view_at(wx, wy) is Some {
            assert(regions[0].in_bounds(wx, wy));
        } else {
            if world_covers(regions.drop_first(), wx, wy) {
                let i = choose|i: int|
                    0 <= i < regions.drop_first().len() && (#[trigger] regions.drop_first()[i]).in_bounds(
                        wx,
                        wy,
                    );
                assert(regions[i + 1].in_bounds(wx, wy));
            }
            if world_covers(regions, wx, wy) {
                let i = choose|i: int|
                    0 <= i < regions.len() && (#[trigger] regions[i]).in_bounds(wx, wy);
                assert(i != 0);
                assert(regions.drop_first()[i - 1].in_bounds(wx, wy));
                assert(world_covers(regions.drop_first(), wx, wy));
            }
        }
    }
}

/// Regions that show nothing at a coordinate do not affect the answer there.
proof fn lemma_world_view_skip(regions: Seq<Region>, k: int, wx: int, wy: int)
    requires
        0 <= k <= regions.len(),
        forall|j: int| 0 <= j < k ==> (#[trigger] regions[j]).view_at(wx, wy) is None,
    ensures
        world_view_at(regions, wx, wy) == world_view_at(regions.skip(k), wx, wy),
    decreases k,
{
    if k > 0 {
        assert(regions[0].view_at(wx, wy) is None);
        assert forall|j: int| 0 <= j < k - 1 implies (#[trigger] regions.drop_first()[j]).view_at(
            wx,
            wy,
        ) is None by {
            assert(regions.drop_first()[j] == regions[j + 1]);
        }
        lemma_world_view_skip(regions.drop_first(), k - 1, wx, wy);
        assert(regions.drop_first().skip(k - 1) =~= regions.skip(k));
    } else {
        assert(regions.skip(0) =~= regions);
    }
}

/// Worlds whose regions show the same cells at a coordinate agree there.
proof fn lemma_world_view_congruence(r1: Seq<Region>, r2: Seq<Region>, wx: int, wy: int)
    requires
        r1.len() == r2.len(),
        forall|i: int| 0 <= i < r1.len() ==> (#[trigger] r2[i]).view_at(wx, wy) == r1[i].view_at(
            wx,
            wy,
        ),
    ensures
        world_view_at(r2, wx, wy) == world_view_at(r1, wx, wy),
    decreases r1.len(),
{
    if r1.len() > 0 {
        assert(r2[0].view_at(wx, wy) == r1[0].view_at(wx, wy));
        assert forall|i: int| 0 <= i < r1.drop_first().len() implies (
        #[trigger] r2.drop_first()[i]).view_at(wx, wy) == r1.drop_first()[i].view_at(wx, wy) by {
            assert(r2.drop_first()[i] == r2[i + 1]);
            assert(r1.drop_first()[i] == r1[i + 1]);
        }
        lemma_world_view_congruence(r1.drop_first(), r2.drop_first(), wx, wy);
    }
}

/// When every region that showed a cell at a coordinate now shows `c` there,
/// the world shows `c` exactly where it showed anything before.
proof fn lemma_world_view_all_set(r1: Seq<Region>, r2: Seq<Region>, x: int, y: int, c: Cell)
    requires
        r1.len() == r2.len(),
        forall|i: int| 0 <= i < r1.len() ==> (#[trigger] r2[i]).view_at(x, y) == (if r1[i].view_at(
            x,
            y,
        ) is Some {
            Some(c)
        } else {
            None
        }),
    ensures
        world_view_at(r2, x, y) == (if world_view_at(r1, x, y) is Some {
            Some(c)
        } else {
            None
        }),
    decreases r1.len(),
{
    if r1.len() > 0 {
        assert(r2[0].view_at(x, y) == (if r1[0].view_at(x, y) is Some {
            Some(c)
        } else {
            None
        }));
        assert forall|i: int| 0 <= i < r1.drop_first().len() implies (
        #[trigger] r2.drop_first()[i]).view_at(x, y) == (if r1.drop_first()[i].view_at(x, y)
            is Some {
            Some(c)
        } else {
            None
        }) by {
            assert(r2.drop_first()[i] == r2[i + 1]);
            assert(r1.drop_first()[i] == r1[i + 1]);
        }
        lemma_world_view_all_set(r1.drop_first(), r2.drop_first(), x, y, c);
    }
}

/// Appending a region changes the world only where nothing answered before.
proof fn lemma_world_view_push(regions: Seq<Region>, nr: Region, wx: int, wy: int)
    ensures
        world_view_at(regions.push(nr), wx, wy) == (match world_view_at(regions, wx, wy) {
            Some(c) => Some(c),
            None => nr.view_at(wx, wy),
        }),
    decreases regions.len(),
{
    if regions.len() == 0 {
        assert(regions.push(nr)[0] == nr);
        assert(world_view_at(regions, wx, wy) is None);
        assert(regions.push(nr).drop_first() =~= Seq::<Region>::empty());
        assert(world_view_at(regions.push(nr).drop_first(), wx, wy) is None);
        assert(world_view_at(regions.push(nr), wx, wy) == nr.view_at(wx, wy));
    } else {
        assert(regions.push(nr)[0] == regions[0]);
        assert(regions.push(nr).drop_first() =~= regions.drop_first().push(nr));
        lemma_world_view_push(regions.drop_first(), nr, wx, wy);
        assert(world_view_at(regions.push(nr), wx, wy) == (match regions[0].view_at(wx, wy) {
            Some(c) => Some(c),
            None => world_view_at(regions.drop_first().push(nr), wx, wy),
        }));
    }
}

/// Some cell of the column at local index `lx` is alive.
pub open spec fn column_has_live(r: Region, lx: int) -> bool {
    exists|ly: int| 0 <= ly < r.height && #[trigger] r.state@[lx]@[ly] == Cell::Alive
}

/// Some cell of the row at local index `ly` is alive.
pub open spec fn row_has_live(r: Region, ly: int) -> bool {
    exists|lx: int| 0 <= lx < r.width && #[trigger] r.state@[lx]@[ly] == Cell::Alive
}

/// The positive x edge is grown: its outermost column holds a live cell and
/// the size arithmetic can hold the growth.
pub open spec fn grows_pos_x(r: Region) -> bool {
    r.width > 0 && r.width as int <= usize::MAX as int - 4 && column_has_live(
        r,
        r.width as int - 1,
    )
}

/// The positive y edge is grown.
pub open spec fn grows_pos_y(r: Region) -> bool {
    r.height > 0 && r.height as int <= usize::MAX as int - 4 && row_has_live(
        r,
        r.height as int - 1,
    )
}

/// The negative x edge is grown: its outermost column holds a live cell and
/// both the size and the anchor arithmetic can hold the growth.
pub open spec fn grows_neg_x(r: Region) -> bool {
    r.width > 0 && r.width as int <= usize::MAX as int - 4 && r.x as int - 2 >= isize::MIN as int
        && column_has_live(r, 0)
}

/// The negative y edge is grown.
pub open spec fn grows_neg_y(r: Region) -> bool {
    r.height > 0 && r.height as int <= usize::MAX as int - 4 && r.y as int - 2 >= isize::MIN as int
        && row_has_live(r, 0)
}

/// Two window changes that each keep the cells in view compose to one, as
/// long as the first loses no covered coordinate.
proof fn lemma_window_transfer_grow(r0: Region, r1: Region, r2: Region)
    requires
        window_transfer(r0, r1),
        window_transfer(r1, r2),
        forall|wx: int, wy: int| r0.covers(wx, wy) ==> r1.covers(wx, wy),
    ensures
        window_transfer(r0, r2),
{
    assert forall|wx: int, wy: int| r2.covers(wx, wy) implies #[trigger] r2.cell_at(wx, wy) == (
    if r0.covers(wx, wy) {
        r0.cell_at(wx, wy)
    } else {
        Cell::Dead
    }) by {
        assert(r2.cell_at(wx, wy) == (if r1.covers(wx, wy) {
            r1.cell_at(wx, wy)
        } else {
            Cell::Dead
        }));
    }
}

/// A window that has been pushed out by one on every edge whose outermost
/// line holds a live cell contains the whole representable neighbourhood of
/// every live cell of the old window.
proof fn lemma_expand_guards(r0: Region, r1: Region)
    requires
        r0.wf(),
        r0.fits(),
        r1.fits(),
        r1.x as int <= r0.x as int,
        (r0.width > 0 && column_has_live(r0, 0) && r0.x as int > isize::MIN as int) ==> r1.x as int
            <= r0.x as int - 1,
        r0.x as int + r0.width as int <= r1.x as int + r1.width as int,
        (r0.width > 0 && column_has_live(r0, r0.width as int - 1) && (r0.x as int + r0.width
            as int) < isize::MAX as int) ==> r0.x as int + r0.width as int + 1 <= r1.x as int
            + r1.width as int,
        r1.y as int <= r0.y as int,
        (r0.height > 0 && row_has_live(r0, 0) && r0.y as int > isize::MIN as int) ==> r1.y as int
            <= r0.y as int - 1,
        r0.y as int + r0.height as int <= r1.y as int + r1.height as int,
        (r0.height > 0 && row_has_live(r0, r0.height as int - 1) && (r0.y as int + r0.height
            as int) < isize::MAX as int) ==> r0.y as int + r0.height as int + 1 <= r1.y as int
            + r1.height as int,
    ensures
        guards_neighbours(r0, r1),
{
    assert forall|qx: int, qy: int, px: int, py: int|
        r0.in_bounds(qx, qy) && r0.cell_at(qx, qy) == Cell::Alive && qx - 1 <= px <= qx + 1 && qy
            - 1 <= py <= qy + 1 && isize::MIN as int <= px < isize::MAX as int && isize::MIN as int
            <= py < isize::MAX as int implies r1.in_bounds(px, py) by {
        if qx == r0.x as int {
            assert(r0.state@[0]@[qy - r0.y as int] == Cell::Alive);
            assert(column_has_live(r0, 0));
        }
        if qx == r0.x as int + r0.width as int - 1 {
            assert(r0.state@[r0.width as int - 1]@[qy - r0.y as int] == Cell::Alive);
            assert(column_has_live(r0, r0.width as int - 1));
        }
        if qy == r0.y as int {
            assert(r0.state@[qx - r0.x as int]@[0] == Cell::Alive);
            assert(row_has_live(r0, 0));
        }
        if qy == r0.y as int + r0.height as int - 1 {
            assert(r0.state@[qx - r0.x as int]@[r0.height as int - 1] == Cell::Alive);
            assert(row_has_live(r0, r0.height as int - 1));
        }
    }
}

/// Regions agree wherever they share coordinates: every region containing a
/// coordinate shows the very cell the whole world shows there. Every world
/// built through the public operations keeps this.
pub open spec fn consistent(regions: Seq<Region>) -> bool {
    forall|k: int, wx: int, wy: int|
        0 <= k < regions.len() && #[trigger] regions[k].in_bounds(wx, wy) ==> regions[k].cell_at(
            wx,
            wy,
        ) == world_cell(regions, wx, wy)
}

/// No two regions of the collection overlap.
pub open spec fn no_overlaps(regions: Seq<Region>) -> bool {
    forall|i: int, j: int|
        0 <= i < j < regions.len() ==> !overlapping(#[trigger] regions[i], #[trigger] regions[j])
}

/// When every region that shows a cell at a coordinate shows `v`, and at
/// least one does, the world shows `v` there.
proof fn lemma_world_view_agree(regions: Seq<Region>, wx: int, wy: int, v: Cell)
    requires
        forall|k: int|
            0 <= k < regions.len() ==> ((#[trigger] regions[k]).view_at(wx, wy) is None
                || regions[k].view_at(wx, wy) == Some(v)),
        exists|k: int| 0 <= k < regions.len() && (#[trigger] regions[k]).view_at(wx, wy) is Some,
    ensures
        world_view_at(regions, wx, wy) == Some(v),
    decreases regions.len(),
{
    let k = choose|k: int|
        0 <= k < regions.len() && (#[trigger] regions[k]).view_at(wx, wy) is Some;
    if regions[0].view_at(wx, wy) is Some {
        assert(regions[0].view_at(wx, wy) == Some(v));
    } else {
        assert(k > 0);
        assert forall|m: int| 0 <= m < regions.drop_first().len() implies ((
        #[trigger] regions.drop_first()[m]).view_at(wx, wy) is None
            || regions.drop_first()[m].view_at(wx, wy) == Some(v)) by {
            assert(regions.drop_first()[m] == regions[m + 1]);
        }
        assert(regions.drop_first()[k - 1] == regions[k]);
        assert(regions.drop_first()[k - 1].view_at(wx, wy) is Some);
        lemma_world_view_agree(regions.drop_first(), wx, wy, v);
    }
}

/// Every live cell's whole representable neighbourhood lies inside some
/// region: no birth next to a live cell can fall outside the covered area.
pub open spec fn covers_neighbourhood(regions: Seq<Region>) -> bool {
    forall|wx: int, wy: int, nx: int, ny: int|
        #![trigger world_cell(regions, wx, wy), world_covers(regions, nx, ny)]
        world_cell(regions, wx, wy) == Cell::Alive && wx - 1 <= nx <= wx + 1 && wy - 1 <= ny <= wy
            + 1 && isize::MIN as int <= nx < isize::MAX as int && isize::MIN as int <= ny
            < isize::MAX as int ==> world_covers(regions, nx, ny)
}

/// `r1` contains the whole representable neighbourhood of every live cell
/// of `r0`.
spec fn guards_neighbours(r0: Region, r1: Region) -> bool {
    forall|wx: int, wy: int, nx: int, ny: int|
        #![trigger r0.in_bounds(wx, wy), r1.in_bounds(nx, ny)]
        r0.in_bounds(wx, wy) && r0.cell_at(wx, wy) == Cell::Alive && wx - 1 <= nx <= wx + 1 && wy
            - 1 <= ny <= wy + 1 && isize::MIN as int <= nx < isize::MAX as int && isize::MIN as int
            <= ny < isize::MAX as int ==> r1.in_bounds(nx, ny)
}

/// Replacing one region by a larger one that shows the world's own cells
/// changes no world cell, keeps the regions agreeing, and loses no coverage.
proof fn lemma_world_replace_agreeing(r1: Seq<Region>, i: int, nr: Region)
    requires
        consistent(r1),
        0 <= i < r1.len(),
        forall|wx: int, wy: int|
            #[trigger] nr.view_at(wx, wy) is Some ==> nr.view_at(wx, wy) == Some(
                world_cell(r1, wx, wy),
            ),
        forall|wx: int, wy: int| r1[i].in_bounds(wx, wy) ==> nr.in_bounds(wx, wy),
    ensures
        consistent(r1.update(i, nr)),
        forall|wx: int, wy: int|
            #[trigger] world_cell(r1.update(i, nr), wx, wy) == world_cell(r1, wx, wy),
        forall|wx: int, wy: int|
            #[trigger] world_covers(r1, wx, wy) ==> world_covers(r1.update(i, nr), wx, wy),
{
    let r2 = r1.update(i, nr);
    assert forall|wx: int, wy: int| #[trigger] world_cell(r2, wx, wy) == world_cell(
        r1,
        wx,
        wy,
    ) by {
        lemma_world_view_covers(r1, wx, wy);
        lemma_world_view_covers(r2, wx, wy);
        let v = world_cell(r1, wx, wy);
        assert forall|m: int| 0 <= m < r2.len() implies ((#[trigger] r2[m]).view_at(wx, wy)
            is None || r2[m].view_at(wx, wy) == Some(v)) by {
            if r2[m].view_at(wx, wy) is Some {
                if m == i {
                    assert(r2[m] == nr);
                } else {
                    assert(r2[m] == r1[m]);
                    assert(r1[m].in_bounds(wx, wy));
                    assert(r1[m].cell_at(wx, wy) == v);
                }
            }
        }
        if world_covers(r2, wx, wy) {
            let m = choose|m: int| 0 <= m < r2.len() && (#[trigger] r2[m]).in_bounds(wx, wy);
            assert(r2[m].view_at(wx, wy) is Some);
            lemma_world_view_agree(r2, wx, wy, v);
            if !world_covers(r1, wx, wy) {
                assert(m == i);
                assert(nr.view_at(wx, wy) == Some(v));
                assert(v == Cell::Dead);
            }
        } else {
            if world_covers(r1, wx, wy) {
                let k = choose|k: int|
                    0 <= k < r1.len() && (#[trigger] r1[k]).in_bounds(wx, wy);
                if k == i {
                    assert(nr.in_bounds(wx, wy));
                    assert(r2[i].in_bounds(wx, wy));
                } else {
                    assert(r2[k] == r1[k]);
                }
                assert(false);
            }
        }
    }
    assert forall|wx: int, wy: int| #[trigger] world_covers(r1, wx, wy) implies world_covers(
        r2,
        wx,
        wy,
    ) by {
        let k = choose|k: int| 0 <= k < r1.len() && (#[trigger] r1[k]).in_bounds(wx, wy);
        if k == i {
            assert(nr.in_bounds(wx, wy));
            assert(r2[i].in_bounds(wx, wy));
        } else {
            assert(r2[k] == r1[k]);
        }
    }
    assert forall|m: int, wx: int, wy: int|
        0 <= m < r2.len() && #[trigger] r2[m].in_bounds(wx, wy) implies r2[m].cell_at(wx, wy)
        == world_cell(r2, wx, wy) by {
        if m == i {
            assert(r2[m] == nr);
            assert(nr.view_at(wx, wy) == Some(world_cell(r1, wx, wy)));
        } else {
            assert(r2[m] == r1[m]);
            assert(r1[m].cell_at(wx, wy) == world_cell(r1, wx, wy));
        }
    }
}

/// Worlds that show the same cell everywhere count the same live neighbours.
proof fn lemma_live_neighbours_congruent(r1: Seq<Region>, r2: Seq<Region>, wx: int, wy: int)
    requires
        forall|a: int, b: int| #[trigger] world_cell(r1, a, b) == world_cell(r2, a, b),
    ensures
        live_neighbours(r1, wx, wy) == live_neighbours(r2, wx, wy),
{
}

/// One step's outcome depends only on the prior generation's cells: two
/// worlds that show the same cell at every coordinate, each stepped under
/// the rule, again show the same cell at every coordinate.
pub proof fn lemma_step_deterministic(
    a0: Seq<Region>,
    a1: Seq<Region>,
    b0: Seq<Region>,
    b1: Seq<Region>,
)
    requires
        forall|wx: int, wy: int| #[trigger] world_cell(a0, wx, wy) == world_cell(b0, wx, wy),
        forall|wx: int, wy: int|
            isize::MIN as int <= wx < isize::MAX as int && isize::MIN as int <= wy < isize::MAX
                as int ==> #[trigger] world_cell(a1, wx, wy) == next_cell(
                world_cell(a0, wx, wy),
                live_neighbours(a0, wx, wy),
            ),
        forall|wx: int, wy: int|
            isize::MIN as int <= wx < isize::MAX as int && isize::MIN as int <= wy < isize::MAX
                as int ==> #[trigger] world_cell(b1, wx, wy) == next_cell(
                world_cell(b0, wx, wy),
                live_neighbours(b0, wx, wy),
            ),
    ensures
        forall|wx: int, wy: int| #[trigger] world_cell(a1, wx, wy) == world_cell(b1, wx, wy),
{
    assert forall|wx: int, wy: int| #[trigger] world_cell(a1, wx, wy) == world_cell(
        b1,
        wx,
        wy,
    ) by {
        if isize::MIN as int <= wx < isize::MAX as int && isize::MIN as int <= wy < isize::MAX
            as int {
            lemma_live_neighbours_congruent(a0, b0, wx, wy);
        } else {
            lemma_world_view_outside(a1, wx, wy);
            lemma_world_view_outside(b1, wx, wy);
        }
    }
}

/// The standard rule: exactly three live neighbours give a live cell, exactly
/// two keep the current state, anything else gives a dead cell.
pub open spec fn next_cell(c: Cell, neighbours: int) -> Cell {
    if neighbours == 3 {
        Cell::Alive
    } else if neighbours == 2 {
        c
    } else {
        Cell::Dead
    }
}

/// One when the world shows a live cell at the coordinate, zero otherwise.
pub open spec fn alive_at(regions: Seq<Region>, wx: int, wy: int) -> int {
    if world_cell(regions, wx, wy) == Cell::Alive {
        1
    } else {
        0
    }
}

/// How many of the eight Moore neighbours of a coordinate are alive.
pub open spec fn live_neighbours(regions: Seq<Region>, wx: int, wy: int) -> int {
    alive_at(regions, wx - 1, wy - 1) + alive_at(regions, wx, wy - 1) + alive_at(
        regions,
        wx + 1,
        wy - 1,
    ) + alive_at(regions, wx - 1, wy) + alive_at(regions, wx + 1, wy) + alive_at(
        regions,
        wx - 1,
        wy + 1,
    ) + alive_at(regions, wx, wy + 1) + alive_at(regions, wx + 1, wy + 1)
}

/// How a region looks after one generation: the same window, every contained
/// cell rewritten by the rule from the previous generation of the whole world.
/// A region whose bounds overflow contains nothing and is left as it was.
pub open spec fn stepped_region(world: Seq<Region>, r0: Region, r1: Region) -> bool {
    &&& r1.x == r0.x
    &&& r1.y == r0.y
    &&& r1.width == r0.width
    &&& r1.height == r0.height
    &&& r1.wf()
    &&& forall|wx: int, wy: int|
        r0.covers(wx, wy) ==> #[trigger] r1.cell_at(wx, wy) == (if r0.fits() {
            next_cell(r0.cell_at(wx, wy), live_neighbours(world, wx, wy))
        } else {
            r0.cell_at(wx, wy)
        })
}

/// No coordinate outside the representable range lies in any region.
proof fn lemma_world_view_outside(regions: Seq<Region>, wx: int, wy: int)
    requires
        wx < isize::MIN as int || wx >= isize::MAX as int || wy < isize::MIN as int || wy
            >= isize::MAX as int,
    ensures
        world_view_at(regions, wx, wy) is None,
    decreases regions.len(),
{
    if regions.len() > 0 {
        assert(!regions[0].in_bounds(wx, wy));
        lemma_world_view_outside(regions.drop_first(), wx, wy);
    }
}

/// Main Game of Life simulation struct.
pub struct GameOfLife {
    pub regions: Vec<Region>,
}

impl GameOfLife {
    /// Every region keeps its buffer invariant.
    pub open spec fn wf(self) -> bool {
        world_wf(self.regions@)
    }

    /// Create a new empty world.
    pub fn new() -> (r: GameOfLife)
        ensures
            r.wf(),
            r.regions@.len() == 0,
            consistent(r.regions@),
    {
        GameOfLife { regions: Vec::new() }
    }

    /// Step the simulation to the next state. The step first makes room
    /// and order: every region edge holding a live cell is grown by one,
    /// and regions that overlap (after growth: also regions that were
    /// adjacent) are merged, so that afterwards no two regions overlap and
    /// no birth can fall outside the covered area. It then rewrites every
    /// covered cell by the standard rule, with neighbour counts read from
    /// the previous generation across all regions. At every representable
    /// coordinate the world afterwards shows exactly the rule applied to
    /// the world before: the outcome depends on the prior generation's
    /// cells alone, not on how they were cut into regions.
    pub fn step(&mut self)
        requires
            old(self).wf(),
            consistent(old(self).regions@),
        ensures
            final(self).wf(),
            consistent(final(self).regions@),
            no_overlaps(final(self).regions@),
            forall|wx: int, wy: int|
                #[trigger] world_covers(old(self).regions@, wx, wy) ==> world_covers(
                    final(self).regions@,
                    wx,
                    wy,
                ),
            forall|wx: int, wy: int|
                isize::MIN as int <= wx < isize::MAX as int && isize::MIN as int <= wy
                    < isize::MAX as int ==> #[trigger] world_cell(final(self).regions@, wx, wy)
                    == next_cell(
                    world_cell(old(self).regions@, wx, wy),
                    live_neighbours(old(self).regions@, wx, wy),
                ),
    {
        let ghost w0 = self.regions@;
        self.expand_regions();
        let ghost w1 = self.regions@;
        self.merge_overlapping_regions();
        let ghost w2 = self.regions@;
        self.step_regions();
        proof {
            // The rule pass keeps every window, so the merged order stands.
            assert forall|a: int, b: int| 0 <= a < b < self.regions@.len() implies !overlapping(
                #[trigger] self.regions@[a],
                #[trigger] self.regions@[b],
            ) by {
                assert(stepped_region(w2, w2[a], self.regions@[a]));
                assert(stepped_region(w2, w2[b], self.regions@[b]));
                assert(!overlapping(w2[a], w2[b]));
                assert(contains_corners(self.regions@[a], self.regions@[b]) == contains_corners(
                    w2[a],
                    w2[b],
                ));
                assert(contains_corners(self.regions@[b], self.regions@[a]) == contains_corners(
                    w2[b],
                    w2[a],
                ));
            }
            assert(no_overlaps(self.regions@));
            // The two reconciliation passes left every world cell alone.
            assert forall|a: int, b: int| #[trigger] world_cell(w2, a, b) == world_cell(
                w0,
                a,
                b,
            ) by {
                assert(world_cell(w1, a, b) == world_cell(w0, a, b));
            }
            assert forall|wx: int, wy: int|
                isize::MIN as int <= wx < isize::MAX as int && isize::MIN as int <= wy
                    < isize::MAX as int implies #[trigger] world_cell(self.regions@, wx, wy)
                == next_cell(world_cell(w0, wx, wy), live_neighbours(w0, wx, wy)) by {
                lemma_live_neighbours_congruent(w2, w0, wx, wy);
                if world_covers(w2, wx, wy) {
                    assert(world_cell(self.regions@, wx, wy) == next_cell(
                        world_cell(w2, wx, wy),
                        live_neighbours(w2, wx, wy),
                    ));
                } else {
                    // Not covered after growth and merge: the coordinate had
                    // no live neighbour, so it was dead and stays dead.
                    assert(!world_covers(w1, wx, wy));
                    assert(!world_covers(w0, wx, wy));
                    if world_cell(w1, wx - 1, wy - 1) == Cell::Alive {
                        assert(world_covers(w1, wx, wy));
                    }
                    if world_cell(w1, wx, wy - 1) == Cell::Alive {
                        assert(world_covers(w1, wx, wy));
                    }
                    if world_cell(w1, wx + 1, wy - 1) == Cell::Alive {
                        assert(world_covers(w1, wx, wy));
                    }
                    if world_cell(w1, wx - 1, wy) == Cell::Alive {
                        assert(world_covers(w1, wx, wy));
                    }
                    if world_cell(w1, wx + 1, wy) == Cell::Alive {
                        assert(world_covers(w1, wx, wy));
                    }
                    if world_cell(w1, wx - 1, wy + 1) == Cell::Alive {
                        assert(world_covers(w1, wx, wy));
                    }
                    if world_cell(w1, wx, wy + 1) == Cell::Alive {
                        assert(world_covers(w1, wx, wy));
                    }
                    if world_cell(w1, wx + 1, wy + 1) == Cell::Alive {
                        assert(world_covers(w1, wx, wy));
                    }
                    assert(live_neighbours(w0, wx, wy) == 0);
                    lemma_world_view_covers(w0, wx, wy);
                    assert(world_cell(w0, wx, wy) == Cell::Dead);
                    assert(!world_covers(self.regions@, wx, wy));
                    lemma_world_view_covers(self.regions@, wx, wy);
                }
            }
        }
    }

    /// Step each region to calculate the next state. Every cell of the next
    /// generation is computed from the previous generation of the whole
    /// world before any region is replaced.
    fn step_regions(&mut self)
        requires
            old(self).wf(),
        ensures
            final(self).wf(),
            final(self).regions@.len() == old(self).regions@.len(),
            forall|i: int|
                0 <= i < old(self).regions@.len() ==> stepped_region(
                    old(self).regions@,
                    old(self).regions@[i],
                    #[trigger] final(self).regions@[i],
                ),
            consistent(old(self).regions@) ==> consistent(final(self).regions@),
            forall|wx: int, wy: int|
                #[trigger] world_covers(final(self).regions@, wx, wy) == world_covers(
                    old(self).regions@,
                    wx,
                    wy,
                ),
            consistent(old(self).regions@) ==> forall|wx: int, wy: int|
                world_covers(old(self).regions@, wx, wy) ==> #[trigger] world_cell(
                    final(self).regions@,
                    wx,
                    wy,
                ) == next_cell(
                    world_cell(old(self).regions@, wx, wy),
                    live_neighbours(old(self).regions@, wx, wy),
                ),
    {
        let ghost orig = self.regions@;
        let n = self.regions.len();
        let mut next: Vec<Region> = Vec::new();
        let mut i: usize = 0;
        while i < n
            invariant
                self.regions@ == orig,
                world_wf(orig),
                n == orig.len(),
                i <= n,
                next@.len() == i,
                forall|j: int|
                    0 <= j < i ==> stepped_region(orig, orig[j], #[trigger] next@[j]),
            decreases n - i,
        {
            let nr = Self::step_region(&self.regions, i);
            next.push(nr);
            i += 1;
        }
        self.regions = next;
        proof {
            // The step keeps every region's window, so the covered area of
            // the world is unchanged.
            assert forall|wx: int, wy: int| #[trigger] world_covers(self.regions@, wx, wy)
                == world_covers(orig, wx, wy) by {
                if world_covers(orig, wx, wy) {
                    let k = choose|k: int|
                        0 <= k < orig.len() && (#[trigger] orig[k]).in_bounds(wx, wy);
                    assert(stepped_region(orig, orig[k], self.regions@[k]));
                    assert(self.regions@[k].in_bounds(wx, wy));
                }
                if world_covers(self.regions@, wx, wy) {
                    let k = choose|k: int|
                        0 <= k < self.regions@.len() && (#[trigger] self.regions@[k]).in_bounds(
                            wx,
                            wy,
                        );
                    assert(stepped_region(orig, orig[k], self.regions@[k]));
                    assert(orig[k].in_bounds(wx, wy));
                }
            }
            if consistent(orig) {
                // Containing regions agreed before the step, so the rule gives
                // them all the same new cell, and the world shows it.
                assert forall|k: int, wx: int, wy: int|
                    0 <= k < self.regions@.len() && #[trigger] self.regions@[k].in_bounds(wx, wy)
                    implies self.regions@[k].cell_at(wx, wy) == world_cell(
                    self.regions@,
                    wx,
                    wy,
                ) by {
                    assert(stepped_region(orig, orig[k], self.regions@[k]));
                    assert(orig[k].in_bounds(wx, wy));
                    let v = next_cell(world_cell(orig, wx, wy), live_neighbours(orig, wx, wy));
                    assert(orig[k].cell_at(wx, wy) == world_cell(orig, wx, wy));
                    assert(self.regions@[k].cell_at(wx, wy) == v);
                    assert forall|m: int| 0 <= m < self.regions@.len() implies ((
                    #[trigger] self.regions@[m]).view_at(wx, wy) is None
                        || self.regions@[m].view_at(wx, wy) == Some(v)) by {
                        if self.regions@[m].view_at(wx, wy) is Some {
                            assert(stepped_region(orig, orig[m], self.regions@[m]));
                            assert(orig[m].in_bounds(wx, wy));
                            assert(orig[m].cell_at(wx, wy) == world_cell(orig, wx, wy));
                        }
                    }
                    assert(self.regions@[k].view_at(wx, wy) is Some);
                    lemma_world_view_agree(self.regions@, wx, wy, v);
                }
                // Within the covered area the whole world follows the rule,
                // with neighbour counts read from the previous generation.
                assert forall|wx: int, wy: int| world_covers(orig, wx, wy) implies
                    #[trigger] world_cell(self.regions@, wx, wy) == next_cell(
                    world_cell(orig, wx, wy),
                    live_neighbours(orig, wx, wy),
                ) by {
                    let k = choose|k: int|
                        0 <= k < orig.len() && (#[trigger] orig[k]).in_bounds(wx, wy);
                    assert(stepped_region(orig, orig[k], self.regions@[k]));
                    assert(self.regions@[k].in_bounds(wx, wy));
                    assert(self.regions@[k].cell_at(wx, wy) == world_cell(
                        self.regions@,
                        wx,
                        wy,
                    ));
                    assert(orig[k].cell_at(wx, wy) == world_cell(orig, wx, wy));
                }
            }
        }
    }

    /// Give every live cell room to spread: each region edge whose outermost
    /// line holds a live cell is pushed out by one, and the grown region is
    /// filled from the world itself, so no cell of the world changes and
    /// regions keep agreeing wherever they overlap.
    fn expand_regions(&mut self)
        requires
            old(self).wf(),
            consistent(old(self).regions@),
        ensures
            final(self).wf(),
            consistent(final(self).regions@),
            forall|wx: int, wy: int|
                #[trigger] world_cell(final(self).regions@, wx, wy) == world_cell(
                    old(self).regions@,
                    wx,
                    wy,
                ),
            forall|wx: int, wy: int|
                #[trigger] world_covers(old(self).regions@, wx, wy) ==> world_covers(
                    final(self).regions@,
                    wx,
                    wy,
                ),
            covers_neighbourhood(final(self).regions@),
    {
        let ghost orig = self.regions@;
        let n = self.regions.len();
        let mut i: usize = 0;
        while i < n
            invariant
                i <= n,
                n == self.regions@.len(),
                self.regions@.len() == orig.len(),
                world_wf(orig),
                consistent(orig),
                self.wf(),
                consistent(self.regions@),
                forall|m: int| i <= m < n ==> self.regions@[m] == orig[m],
                forall|wx: int, wy: int|
                    #[trigger] world_cell(self.regions@, wx, wy) == world_cell(orig, wx, wy),
                forall|wx: int, wy: int|
                    #[trigger] world_covers(orig, wx, wy) ==> world_covers(self.regions@, wx, wy),
                forall|j: int|
                    0 <= j < i ==> guards_neighbours(orig[j], #[trigger] self.regions@[j]),
            decreases n - i,
        {
            let (ox, oy, ow, oh) = {
                let r = &self.regions[i];
                (r.x, r.y, r.width, r.height)
            };
            let fits_x: bool = match ox.checked_add_unsigned(ow) {
                Some(_) => true,
                None => false,
            };
            let fits_y: bool = match oy.checked_add_unsigned(oh) {
                Some(_) => true,
                None => false,
            };
            if fits_x && fits_y {
                let left_live: bool = ow > 0 && Self::column_live(&self.regions[i], 0);
                let right_live: bool = ow > 0 && Self::column_live(&self.regions[i], ow - 1);
                let bottom_live: bool = oh > 0 && Self::row_live(&self.regions[i], 0);
                let top_live: bool = oh > 0 && Self::row_live(&self.regions[i], oh - 1);
                let nx: isize = if left_live && ox > isize::MIN {
                    ox - 1
                } else {
                    ox
                };
                let ny: isize = if bottom_live && oy > isize::MIN {
                    oy - 1
                } else {
                    oy
                };
                let end_x: i128 = (ox as i128) + (ow as i128);
                let end_y: i128 = (oy as i128) + (oh as i128);
                let nend_x: i128 = if right_live && end_x < (isize::MAX as i128) {
                    end_x + 1
                } else {
                    end_x
                };
                let nend_y: i128 = if top_live && end_y < (isize::MAX as i128) {
                    end_y + 1
                } else {
                    end_y
                };
                let nw: usize = (nend_x - (nx as i128)) as usize;
                let nh: usize = (nend_y - (ny as i128)) as usize;
                if nx != ox || ny != oy || nw != ow || nh != oh {
                    let mut nr = Region::new(nx, ny, nw, nh);
                    self.populate_region(&mut nr);
                    let ghost nrg = nr;
                    let ghost r1 = self.regions@;
                    proof {
                        assert forall|wx: int, wy: int| r1[i as int].in_bounds(wx, wy)
                            implies nrg.in_bounds(wx, wy) by {}
                        assert forall|wx: int, wy: int| #[trigger] nrg.view_at(wx, wy) is Some
                            implies nrg.view_at(wx, wy) == Some(world_cell(r1, wx, wy)) by {}
                    }
                    self.regions.set(i, nr);
                    proof {
                        assert(self.regions@ =~= r1.update(i as int, nrg));
                        lemma_world_replace_agreeing(r1, i as int, nrg);
                        lemma_expand_guards(orig[i as int], nrg);
                    }
                } else {
                    proof {
                        lemma_expand_guards(orig[i as int], orig[i as int]);
                    }
                }
            } else {
                proof {
                    // The region contains no coordinate, so it guards nothing.
                    assert(guards_neighbours(orig[i as int], self.regions@[i as int]));
                }
            }
            i += 1;
        }
        proof {
            // Every live cell of the unchanged world now has its whole
            // neighbourhood covered by the region that held it.
            assert forall|wx: int, wy: int, nx2: int, ny2: int|
                world_cell(self.regions@, wx, wy) == Cell::Alive && wx - 1 <= nx2 <= wx + 1 && wy
                    - 1 <= ny2 <= wy + 1 && isize::MIN as int <= nx2 < isize::MAX as int
                    && isize::MIN as int <= ny2 < isize::MAX as int implies world_covers(
                self.regions@,
                nx2,
                ny2,
            ) by {
                assert(world_cell(orig, wx, wy) == Cell::Alive);
                lemma_world_view_covers(orig, wx, wy);
                let m = choose|m: int| 0 <= m < orig.len() && (#[trigger] orig[m]).in_bounds(
                    wx,
                    wy,
                );
                assert(orig[m].cell_at(wx, wy) == world_cell(orig, wx, wy));
                assert(guards_neighbours(orig[m], self.regions@[m]));
                assert(self.regions@[m].in_bounds(nx2, ny2));
                assert(world_covers(self.regions@, nx2, ny2));
            }
        }
    }

    /// The next generation of one region, read entirely from the previous
    /// generation held in `regions`.
    fn step_region(regions: &Vec<Region>, idx: usize) -> (nr: Region)
        requires
            world_wf(regions@),
            idx < regions@.len(),
        ensures
            stepped_region(regions@, regions@[idx as int], nr),
    {
        let r = &regions[idx];
        assert(r.wf());
        let fits_x: bool = match r.x.checked_add_unsigned(r.width) {
            Some(_) => true,
            None => false,
        };
        let fits_y: bool = match r.y.checked_add_unsigned(r.height) {
            Some(_) => true,
            None => false,
        };
        if !(fits_x && fits_y) {
            // The region contains no coordinate at all: keep its buffer.
            let g = shifted_grid(&r.state, r.height, r.width, r.height, 0, 0);
            let nr = Region { x: r.x, y: r.y, width: r.width, height: r.height, state: g };
            assert forall|wx: int, wy: int| r.covers(wx, wy) implies #[trigger] nr.cell_at(wx, wy)
                == r.cell_at(wx, wy) by {
                let i = wx - r.x as int;
                let j = wy - r.y as int;
                assert(nr.state@[i]@[j] == r.state@[i]@[j]);
            }
            nr
        } else {
            let w = r.width;
            let h = r.height;
            let mut g: Vec<Vec<Cell>> = Vec::new();
            let mut lx: usize = 0;
            while lx < w
                invariant
                    world_wf(regions@),
                    idx < regions@.len(),
                    r == &regions[idx as int],
                    r.wf(),
                    r.fits(),
                    w == r.width,
                    h == r.height,
                    lx <= w,
                    g@.len() == lx,
                    forall|a: int| 0 <= a < lx ==> (#[trigger] g@[a])@.len() == h,
                    forall|a: int, b: int|
                        0 <= a < lx && 0 <= b < h ==> #[trigger] g@[a]@[b] == next_cell(
                            r.state@[a]@[b],
                            live_neighbours(regions@, r.x as int + a, r.y as int + b),
                        ),
                decreases w - lx,
            {
                let wx: isize = ((r.x as i128) + (lx as i128)) as isize;
                let mut col: Vec<Cell> = Vec::new();
                let mut ly: usize = 0;
                while ly < h
                    invariant
                        world_wf(regions@),
                        idx < regions@.len(),
                        r == &regions[idx as int],
                        r.wf(),
                        r.fits(),
                        w == r.width,
                        h == r.height,
                        lx < w,
                        ly <= h,
                        wx as int == r.x as int + lx as int,
                        col@.len() == ly,
                        forall|b: int|
                            0 <= b < ly ==> #[trigger] col@[b] == next_cell(
                                r.state@[lx as int]@[b],
                                live_neighbours(regions@, r.x as int + lx as int, r.y as int + b),
                            ),
                    decreases h - ly,
                {
                    let wy: isize = ((r.y as i128) + (ly as i128)) as isize;
                    let cur: Cell = r.state[lx][ly];
                    let c = Self::step_cell(regions, cur, wx, wy);
                    col.push(c);
                    ly += 1;
                }
                g.push(col);
                lx += 1;
            }
            let nr = Region { x: r.x, y: r.y, width: r.width, height: r.height, state: g };
            assert forall|wx: int, wy: int| r.covers(wx, wy) implies #[trigger] nr.cell_at(wx, wy)
                == next_cell(r.cell_at(wx, wy), live_neighbours(regions@, wx, wy)) by {
                let i = wx - r.x as int;
                let j = wy - r.y as int;
                assert(nr.state@[i]@[j] == next_cell(
                    r.state@[i]@[j],
                    live_neighbours(regions@, r.x as int + i, r.y as int + j),
                ));
            }
            nr
        }
    }

    /// Compute the next state of one cell from the previous generation.
    fn step_cell(regions: &Vec<Region>, current: Cell, x: isize, y: isize) -> (r: Cell)
        requires
            world_wf(regions@),
        ensures
            r == next_cell(current, live_neighbours(regions@, x as int, y as int)),
    {
        let mut neighbours: u8 = 0;
        neighbours = neighbours + Self::neighbour_alive(regions, x, y, -1, -1);
        neighbours = neighbours + Self::neighbour_alive(regions, x, y, 0, -1);
        neighbours = neighbours + Self::neighbour_alive(regions, x, y, 1, -1);
        neighbours = neighbours + Self::neighbour_alive(regions, x, y, -1, 0);
        neighbours = neighbours + Self::neighbour_alive(regions, x, y, 1, 0);
        neighbours = neighbours + Self::neighbour_alive(regions, x, y, -1, 1);
        neighbours = neighbours + Self::neighbour_alive(regions, x, y, 0, 1);
        neighbours = neighbours + Self::neighbour_alive(regions, x, y, 1, 1);
        if neighbours == 3 {
            Cell::Alive
        } else if neighbours == 2 {
            current
        } else {
            Cell::Dead
        }
    }

    /// Whether the neighbour of a cell at the given offset is alive; a
    /// neighbour beyond the representable coordinates lies in no region.
    fn neighbour_alive(regions: &Vec<Region>, x: isize, y: isize, dx: isize, dy: isize) -> (r: u8)
        requires
            world_wf(regions@),
            -1 <= dx as int <= 1,
            -1 <= dy as int <= 1,
        ensures
            r as int == alive_at(regions@, x as int + dx as int, y as int + dy as int),
    {
        let nx: i128 = (x as i128) + (dx as i128);
        let ny: i128 = (y as i128) + (dy as i128);
        if nx < (isize::MIN as i128) || nx > (isize::MAX as i128) || ny < (isize::MIN as i128)
            || ny > (isize::MAX as i128) {
            proof {
                lemma_world_view_outside(regions@, x as int + dx as int, y as int + dy as int);
            }
            0
        } else {
            match Self::world_get(regions, nx as isize, ny as isize) {
                Cell::Alive => 1,
                Cell::Dead => 0,
            }
        }
    }

    /// The cell the given regions show at a coordinate, dead when none answers.
    fn world_get(regions: &Vec<Region>, x: isize, y: isize) -> (r: Cell)
        requires
            world_wf(regions@),
        ensures
            r == world_cell(regions@, x as int, y as int),
    {
        let n = regions.len();
        let mut i: usize = 0;
        while i < n
            invariant
                world_wf(regions@),
                i <= n,
                n == regions@.len(),
                forall|j: int|
                    0 <= j < i ==> (#[trigger] regions@[j]).view_at(x as int, y as int) is None,
            decreases n - i,
        {
            match regions[i].get_cell(x, y) {
                Some(state) => {
                    proof {
                        lemma_world_view_skip(regions@, i as int, x as int, y as int);
                        assert(regions@.skip(i as int)[0] == regions@[i as int]);
                        assert(world_view_at(regions@.skip(i as int), x as int, y as int) == Some(
                            state,
                        ));
                    }
                    return state;
                },
                None => {},
            }
            i += 1;
        }
        proof {
            lemma_world_view_skip(regions@, n as int, x as int, y as int);
            assert(regions@.skip(n as int) =~= Seq::<Region>::empty());
        }
        Cell::Dead
    }

    /// Check if a position is contained within a region of this world.
    pub fn pos_in_bounds(&self, x: isize, y: isize) -> (r: bool)
        ensures
            r == world_covers(self.regions@, x as int, y as int),
    {
        let n = self.regions.len();
        let mut i: usize = 0;
        while i < n
            invariant
                i <= n,
                n == self.regions@.len(),
                forall|j: int|
                    0 <= j < i ==> !(#[trigger] self.regions@[j]).in_bounds(x as int, y as int),
            decreases n - i,
        {
            if self.regions[i].pos_in_bounds(x, y) {
                return true;
            }
            i += 1;
        }
        false
    }

    /// Get the state of the cell at the given x y coordinates.
    pub fn get_cell(&self, x: isize, y: isize) -> (r: Cell)
        requires
            self.wf(),
        ensures
            r == world_cell(self.regions@, x as int, y as int),
    {
        Self::world_get(&self.regions, x, y)
    }

    /// Populate the provided region with the state of the current world.
    pub fn populate_region(&self, region: &mut Region)
        requires
            self.wf(),
            old(region).wf(),
        ensures
            final(region).wf(),
            final(region).x == old(region).x,
            final(region).y == old(region).y,
            final(region).width == old(region).width,
            final(region).height == old(region).height,
            forall|wx: int, wy: int|
                #[trigger] final(region).view_at(wx, wy) == (if old(region).in_bounds(wx, wy) {
                    Some(world_cell(self.regions@, wx, wy))
                } else {
                    old(region).view_at(wx, wy)
                }),
    {
        // A region whose bounds arithmetic overflows contains no coordinate.
        let end_x: i128 = (region.x as i128) + (region.width as i128);
        let end_y: i128 = (region.y as i128) + (region.height as i128);
        if end_x > (isize::MAX as i128) || end_y > (isize::MAX as i128) {
            return;
        }
        let w = region.width;
        let h = region.height;
        let mut lx: usize = 0;
        while lx < w
            invariant
                self.wf(),
                region.wf(),
                lx <= w,
                region.x == old(region).x,
                region.y == old(region).y,
                region.width == old(region).width,
                region.height == old(region).height,
                w == region.width,
                h == region.height,
                region.fits(),
                forall|wx: int, wy: int|
                    #[trigger] region.view_at(wx, wy) == (if wx - region.x < lx && old(
                        region,
                    ).in_bounds(wx, wy) {
                        Some(world_cell(self.regions@, wx, wy))
                    } else {
                        old(region).view_at(wx, wy)
                    }),
            decreases w - lx,
        {
            let wx: isize = ((region.x as i128) + (lx as i128)) as isize;
            let mut ly: usize = 0;
            while ly < h
                invariant
                    self.wf(),
                    region.wf(),
                    lx < w,
                    ly <= h,
                    region.x == old(region).x,
                    region.y == old(region).y,
                    region.width == old(region).width,
                    region.height == old(region).height,
                    w == region.width,
                    h == region.height,
                    region.fits(),
                    wx as int == region.x as int + lx as int,
                    forall|wx2: int, wy2: int|
                        #[trigger] region.view_at(wx2, wy2) == (if (wx2 - region.x < lx || (wx2
                            - region.x == lx && wy2 - region.y < ly)) && old(region).in_bounds(
                            wx2,
                            wy2,
                        ) {
                            Some(world_cell(self.regions@, wx2, wy2))
                        } else {
                            old(region).view_at(wx2, wy2)
                        }),
                decreases h - ly,
            {
                let wy: isize = ((region.y as i128) + (ly as i128)) as isize;
                let cell = self.get_cell(wx, wy);
                region.set_cell(wx, wy, cell);
                ly += 1;
            }
            lx += 1;
        }
    }

    /// Set the state of the world to that of the given region.
    pub fn set_region(&mut self, region: &Region)
        requires
            old(self).wf(),
            region.wf(),
        ensures
            final(self).wf(),
            forall|wx: int, wy: int|
                #[trigger] world_cell(final(self).regions@, wx, wy) == (if region.in_bounds(
                    wx,
                    wy,
                ) {
                    region.cell_at(wx, wy)
                } else {
                    world_cell(old(self).regions@, wx, wy)
                }),
            consistent(old(self).regions@) ==> consistent(final(self).regions@),
    {
        // A region whose bounds arithmetic overflows contains no coordinate.
        let end_x: i128 = (region.x as i128) + (region.width as i128);
        let end_y: i128 = (region.y as i128) + (region.height as i128);
        if end_x > (isize::MAX as i128) || end_y > (isize::MAX as i128) {
            return;
        }
        let w = region.width;
        let h = region.height;
        let mut lx: usize = 0;
        while lx < w
            invariant
                self.wf(),
                region.wf(),
                region.fits(),
                consistent(old(self).regions@) ==> consistent(self.regions@),
                lx <= w,
                w == region.width,
                h == region.height,
                forall|wx: int, wy: int|
                    #[trigger] world_cell(self.regions@, wx, wy) == (if wx - region.x < lx
                        && region.in_bounds(wx, wy) {
                        region.cell_at(wx, wy)
                    } else {
                        world_cell(old(self).regions@, wx, wy)
                    }),
            decreases w - lx,
        {
            let wx: isize = ((region.x as i128) + (lx as i128)) as isize;
            let mut ly: usize = 0;
            while ly < h
                invariant
                    self.wf(),
                    region.wf(),
                    region.fits(),
                    consistent(old(self).regions@) ==> consistent(self.regions@),
                    lx < w,
                    ly <= h,
                    w == region.width,
                    h == region.height,
                    wx as int == region.x as int + lx as int,
                    forall|wx2: int, wy2: int|
                        #[trigger] world_cell(self.regions@, wx2, wy2) == (if (wx2 - region.x < lx
                            || (wx2 - region.x == lx && wy2 - region.y < ly)) && region.in_bounds(
                            wx2,
                            wy2,
                        ) {
                            region.cell_at(wx2, wy2)
                        } else {
                            world_cell(old(self).regions@, wx2, wy2)
                        }),
                decreases h - ly,
            {
                let wy: isize = ((region.y as i128) + (ly as i128)) as isize;
                let cell: Cell = region.state[lx][ly];
                self.set_cell(wx, wy, cell);
                ly += 1;
            }
            lx += 1;
        }
    }

    /// Resizes provided region to maintain a dead cell buffer on its edges:
    /// every edge whose outermost cells hold a live cell is grown by two dead
    /// columns or rows, so a pattern reaching the border has room to spread.
    /// Existing cells keep their values at their world coordinates; growth
    /// that the coordinate or size arithmetic cannot hold is skipped.
    pub fn resize_region(region: &mut Region)
        requires
            old(region).wf(),
        ensures
            final(region).wf(),
            window_transfer(*old(region), *final(region)),
            forall|wx: int, wy: int|
                old(region).covers(wx, wy) ==> final(region).covers(wx, wy),
            forall|wx: int, wy: int|
                old(region).covers(wx, wy) ==> #[trigger] final(region).cell_at(wx, wy) == old(
                    region,
                ).cell_at(wx, wy),
            final(region).x as int == old(region).x as int - (if grows_neg_x(*old(region)) {
                2int
            } else {
                0int
            }),
            final(region).y as int == old(region).y as int - (if grows_neg_y(*old(region)) {
                2int
            } else {
                0int
            }),
            final(region).width as int == old(region).width as int + (if grows_pos_x(
                *old(region),
            ) {
                2int
            } else {
                0int
            }) + (if grows_neg_x(*old(region)) {
                2int
            } else {
                0int
            }),
            final(region).height as int == old(region).height as int + (if grows_pos_y(
                *old(region),
            ) {
                2int
            } else {
                0int
            }) + (if grows_neg_y(*old(region)) {
                2int
            } else {
                0int
            }),
    {
        let small: bool = region.width <= usize::MAX - 4;
        let small_h: bool = region.height <= usize::MAX - 4;
        let gx: isize = if region.width > 0 && small && Self::column_live(region, region.width - 1)
            {
            2
        } else {
            0
        };
        let gnx: isize = if region.width > 0 && small && region.x >= isize::MIN + 2
            && Self::column_live(region, 0) {
            2
        } else {
            0
        };
        let gy: isize = if region.height > 0 && small_h && Self::row_live(
            region,
            region.height - 1,
        ) {
            2
        } else {
            0
        };
        let gny: isize = if region.height > 0 && small_h && region.y >= isize::MIN + 2
            && Self::row_live(region, 0) {
            2
        } else {
            0
        };
        let ghost r0 = *region;
        region.adjust_size(Edge::X, gx);
        let ghost r1 = *region;
        region.adjust_size(Edge::Y, gy);
        let ghost r2 = *region;
        region.adjust_size(Edge::NegX, gnx);
        let ghost r3 = *region;
        region.adjust_size(Edge::NegY, gny);
        proof {
            lemma_window_transfer_grow(r0, r1, r2);
            lemma_window_transfer_grow(r0, r2, r3);
            lemma_window_transfer_grow(r0, r3, *region);
        }
    }

    /// Whether the column at local index `lx` holds a live cell.
    fn column_live(region: &Region, lx: usize) -> (r: bool)
        requires
            region.wf(),
            (lx as int) < region.width as int,
        ensures
            r == column_has_live(*region, lx as int),
    {
        let h = region.height;
        let mut ly: usize = 0;
        while ly < h
            invariant
                region.wf(),
                (lx as int) < region.width as int,
                h == region.height,
                ly <= h,
                forall|b: int| 0 <= b < ly ==> region.state@[lx as int]@[b] != Cell::Alive,
            decreases h - ly,
        {
            match region.state[lx][ly] {
                Cell::Alive => {
                    return true;
                },
                Cell::Dead => {},
            }
            ly += 1;
        }
        false
    }

    /// Whether the row at local index `ly` holds a live cell.
    fn row_live(region: &Region, ly: usize) -> (r: bool)
        requires
            region.wf(),
            (ly as int) < region.height as int,
        ensures
            r == row_has_live(*region, ly as int),
    {
        let w = region.width;
        let mut lx: usize = 0;
        while lx < w
            invariant
                region.wf(),
                (ly as int) < region.height as int,
                w == region.width,
                lx <= w,
                forall|a: int| 0 <= a < lx ==> region.state@[a]@[ly as int] != Cell::Alive,
            decreases w - lx,
        {
            match region.state[lx][ly] {
                Cell::Alive => {
                    return true;
                },
                Cell::Dead => {},
            }
            lx += 1;
        }
        false
    }

    /// Merge overlapping regions into single regions: afterwards no two
    /// regions overlap, and the world shows the same cell at every
    /// coordinate as before. Regions whose bounds arithmetic overflows
    /// contain no coordinate and are discarded on the way.
    pub fn merge_overlapping_regions(&mut self)
        requires
            old(self).wf(),
            consistent(old(self).regions@),
        ensures
            final(self).wf(),
            consistent(final(self).regions@),
            no_overlaps(final(self).regions@),
            forall|wx: int, wy: int|
                #[trigger] world_cell(final(self).regions@, wx, wy) == world_cell(
                    old(self).regions@,
                    wx,
                    wy,
                ),
            forall|wx: int, wy: int|
                #[trigger] world_covers(old(self).regions@, wx, wy) ==> world_covers(
                    final(self).regions@,
                    wx,
                    wy,
                ),
    {
        let ghost orig = self.regions@;
        // First drop the regions that contain no coordinate at all.
        let n = self.regions.len();
        let mut kept: Vec<Region> = Vec::new();
        let mut i: usize = 0;
        while i < n
            invariant
                i <= n,
                n == self.regions@.len(),
                self.regions@.len() == orig.len(),
                world_wf(orig),
                forall|m: int| i <= m < n ==> self.regions@[m] == orig[m],
                world_wf(kept@),
                forall|k: int| 0 <= k < kept@.len() ==> (#[trigger] kept@[k]).fits(),
                forall|k: int|
                    0 <= k < kept@.len() ==> exists|m: int|
                        0 <= m < i && #[trigger] kept@[k] == #[trigger] orig[m],
                forall|wx: int, wy: int|
                    world_view_at(kept@, wx, wy) == #[trigger] world_view_at(
                        orig.take(i as int),
                        wx,
                        wy,
                    ),
            decreases n - i,
        {
            let mut r = Region::new(0, 0, 0, 0);
            self.regions.set_and_swap(i, &mut r);
            assert(r == orig[i as int]);
            let fits_x: bool = match r.x.checked_add_unsigned(r.width) {
                Some(_) => true,
                None => false,
            };
            let fits_y: bool = match r.y.checked_add_unsigned(r.height) {
                Some(_) => true,
                None => false,
            };
            proof {
                assert(orig.take(i as int + 1) =~= orig.take(i as int).push(orig[i as int]));
            }
            if fits_x && fits_y {
                let ghost kept0 = kept@;
                kept.push(r);
                assert forall|wx: int, wy: int| world_view_at(kept@, wx, wy)
                    == #[trigger] world_view_at(orig.take(i as int + 1), wx, wy) by {
                    lemma_world_view_push(kept0, orig[i as int], wx, wy);
                    lemma_world_view_push(orig.take(i as int), orig[i as int], wx, wy);
                }
            } else {
                // This region contains nothing: dropping it changes no cell.
                assert forall|wx: int, wy: int| world_view_at(kept@, wx, wy)
                    == #[trigger] world_view_at(orig.take(i as int + 1), wx, wy) by {
                    assert(orig[i as int].view_at(wx, wy) is None);
                    lemma_world_view_push(orig.take(i as int), orig[i as int], wx, wy);
                }
            }
            i += 1;
        }
        proof {
            assert(orig.take(n as int) =~= orig);
        }
        self.regions = kept;
        proof {
            // The kept regions still agree everywhere: each is one of the
            // originals and the world is unchanged.
            assert forall|k: int, wx: int, wy: int|
                0 <= k < self.regions@.len() && #[trigger] self.regions@[k].in_bounds(wx, wy)
                implies self.regions@[k].cell_at(wx, wy) == world_cell(self.regions@, wx, wy) by {
                let m = choose|m: int| 0 <= m < n && self.regions@[k] == orig[m];
                assert(orig[m].in_bounds(wx, wy));
                assert(orig[m].cell_at(wx, wy) == world_cell(orig, wx, wy));
            }
        }
        proof {
            assert forall|wx: int, wy: int| #[trigger] world_covers(orig, wx, wy) implies
                world_covers(self.regions@, wx, wy) by {
                lemma_world_view_covers(orig, wx, wy);
                lemma_world_view_covers(self.regions@, wx, wy);
            }
        }
        // Now merge overlapping pairs until none is left.
        let mut done = false;
        while !done
            invariant
                self.wf(),
                consistent(self.regions@),
                forall|k: int| 0 <= k < self.regions@.len() ==> (#[trigger] self.regions@[k]).fits(),
                forall|wx: int, wy: int|
                    #[trigger] world_cell(self.regions@, wx, wy) == world_cell(orig, wx, wy),
                forall|wx: int, wy: int|
                    #[trigger] world_covers(orig, wx, wy) ==> world_covers(self.regions@, wx, wy),
                done ==> no_overlaps(self.regions@),
            decreases self.regions@.len() + (if done { 0int } else { 1int }),
        {
            match Self::find_overlapping_pair(&self.regions) {
                None => {
                    done = true;
                },
                Some((a, b)) => {
                    self.merge_pair(a, b);
                },
            }
        }
    }

    /// The first pair of regions, in index order, that overlap.
    fn find_overlapping_pair(regions: &Vec<Region>) -> (r: Option<(usize, usize)>)
        ensures
            (match r {
                Some(p) => (p.0 as int) < (p.1 as int) && (p.1 as int) < regions@.len(),
                None => no_overlaps(regions@),
            }),
            r matches Some(p) ==> overlapping(
                regions@[p.0 as int],
                regions@[p.1 as int],
            ),
    {
        let n = regions.len();
        let mut i: usize = 0;
        while i < n
            invariant
                i <= n,
                n == regions@.len(),
                forall|a: int, b: int|
                    0 <= a < i && a < b < n ==> !#[trigger] overlapping(regions@[a], regions@[b]),
            decreases n - i,
        {
            let mut j: usize = i + 1;
            while j < n
                invariant
                    i < n,
                    i < j <= n,
                    n == regions@.len(),
                    forall|a: int, b: int|
                        0 <= a < i && a < b < n ==> !#[trigger] overlapping(
                            regions@[a],
                            regions@[b],
                        ),
                    forall|b: int|
                        i < b < j ==> !#[trigger] overlapping(regions@[i as int], regions@[b]),
                decreases n - j,
            {
                if regions[i].is_overlapping(&regions[j]) {
                    return Some((i, j));
                }
                j += 1;
            }
            i += 1;
        }
        None
    }

    /// Replace the two regions at `i` and `j` by one region covering their
    /// union bounding box, filled from the world, leaving every world cell
    /// as it was.
    #[verifier::rlimit(100)]
    fn merge_pair(&mut self, i: usize, j: usize)
        requires
            old(self).wf(),
            consistent(old(self).regions@),
            forall|k: int|
                0 <= k < old(self).regions@.len() ==> (#[trigger] old(self).regions@[k]).fits(),
            (i as int) < (j as int) < old(self).regions@.len(),
        ensures
            final(self).wf(),
            consistent(final(self).regions@),
            forall|k: int|
                0 <= k < final(self).regions@.len() ==> (#[trigger] final(self).regions@[k]).fits(),
            final(self).regions@.len() == old(self).regions@.len() - 1,
            forall|wx: int, wy: int|
                #[trigger] world_cell(final(self).regions@, wx, wy) == world_cell(
                    old(self).regions@,
                    wx,
                    wy,
                ),
            forall|wx: int, wy: int|
                #[trigger] world_covers(old(self).regions@, wx, wy) ==> world_covers(
                    final(self).regions@,
                    wx,
                    wy,
                ),
    {
        let (ax, ay, aw, ah) = {
            let a = &self.regions[i];
            (a.x, a.y, a.width, a.height)
        };
        let (bx, by, bw, bh) = {
            let b = &self.regions[j];
            (b.x, b.y, b.width, b.height)
        };
        // The union bounding box of the two windows.
        let nx: isize = if ax <= bx {
            ax
        } else {
            bx
        };
        let ny: isize = if ay <= by {
            ay
        } else {
            by
        };
        let a_end_x: i128 = (ax as i128) + (aw as i128);
        let b_end_x: i128 = (bx as i128) + (bw as i128);
        let end_x: i128 = if a_end_x >= b_end_x {
            a_end_x
        } else {
            b_end_x
        };
        let a_end_y: i128 = (ay as i128) + (ah as i128);
        let b_end_y: i128 = (by as i128) + (bh as i128);
        let end_y: i128 = if a_end_y >= b_end_y {
            a_end_y
        } else {
            b_end_y
        };
        assert(end_x <= isize::MAX as i128);
        assert(end_y <= isize::MAX as i128);
        let w: usize = (end_x - (nx as i128)) as usize;
        let h: usize = (end_y - (ny as i128)) as usize;
        let mut nr = Region::new(nx, ny, w, h);
        self.populate_region(&mut nr);
        let ghost nrg = nr;
        let ghost r1 = self.regions@;
        self.regions.set(i, nr);
        self.regions.remove(j);
        proof {
            let r2 = self.regions@;
            r1.update(i as int, nrg).remove_ensures(j as int);
            assert forall|m: int| 0 <= m < r2.len() implies r2[m] == (if m < j {
                if m == i {
                    nrg
                } else {
                    r1[m]
                }
            } else {
                r1[m + 1]
            }) by {}
            // The union window contains both merged windows.
            assert(nrg.fits());
            assert forall|wx: int, wy: int| r1[i as int].in_bounds(wx, wy) implies nrg.in_bounds(
                wx,
                wy,
            ) by {}
            assert forall|wx: int, wy: int| r1[j as int].in_bounds(wx, wy) implies nrg.in_bounds(
                wx,
                wy,
            ) by {}
            // Every world cell is unchanged.
            assert forall|wx: int, wy: int| #[trigger] world_cell(r2, wx, wy) == world_cell(
                r1,
                wx,
                wy,
            ) by {
                lemma_world_view_covers(r1, wx, wy);
                lemma_world_view_covers(r2, wx, wy);
                let v = world_cell(r1, wx, wy);
                if nrg.in_bounds(wx, wy) {
                    assert(nrg.view_at(wx, wy) == Some(v));
                    assert forall|m: int| 0 <= m < r2.len() implies ((#[trigger] r2[m]).view_at(
                        wx,
                        wy,
                    ) is None || r2[m].view_at(wx, wy) == Some(v)) by {
                        if r2[m].view_at(wx, wy) is Some && r2[m] != nrg {
                            let k: int = if m < j {
                                m
                            } else {
                                m + 1
                            };
                            assert(r2[m] == r1[k]);
                            assert(r1[k].in_bounds(wx, wy));
                            assert(r1[k].cell_at(wx, wy) == v);
                        }
                    }
                    assert(r2[i as int] == nrg);
                    assert(r2[i as int].view_at(wx, wy) is Some);
                    lemma_world_view_agree(r2, wx, wy, v);
                } else {
                    if exists|k: int|
                        0 <= k < r1.len() && k != i && k != j && (#[trigger] r1[k]).in_bounds(
                            wx,
                            wy,
                        ) {
                        let k = choose|k: int|
                            0 <= k < r1.len() && k != i && k != j && (#[trigger] r1[k]).in_bounds(
                                wx,
                                wy,
                            );
                        assert(world_covers(r1, wx, wy));
                        assert(r1[k].cell_at(wx, wy) == v);
                        assert forall|m: int| 0 <= m < r2.len() implies ((#[trigger] r2[m]).view_at(
                            wx,
                            wy,
                        ) is None || r2[m].view_at(wx, wy) == Some(v)) by {
                            if r2[m].view_at(wx, wy) is Some {
                                assert(r2[m] != nrg || !nrg.in_bounds(wx, wy));
                                let k2: int = if m < j {
                                    m
                                } else {
                                    m + 1
                                };
                                assert(r2[m] == nrg || r2[m] == r1[k2]);
                                if r2[m] == r1[k2] && r1[k2].in_bounds(wx, wy) {
                                    assert(r1[k2].cell_at(wx, wy) == v);
                                }
                            }
                        }
                        let ki: int = if k < j {
                            k
                        } else {
                            k - 1
                        };
                        assert(r2[ki] == r1[k]);
                        assert(r2[ki].view_at(wx, wy) is Some);
                        lemma_world_view_agree(r2, wx, wy, v);
                    } else {
                        // No region contained the coordinate before, none does now.
                        assert(!world_covers(r1, wx, wy)) by {
                            if world_covers(r1, wx, wy) {
                                let k = choose|k: int|
                                    0 <= k < r1.len() && (#[trigger] r1[k]).in_bounds(wx, wy);
                                assert(k == i || k == j);
                                assert(nrg.in_bounds(wx, wy));
                            }
                        }
                        assert(!world_covers(r2, wx, wy)) by {
                            if world_covers(r2, wx, wy) {
                                let m = choose|m: int|
                                    0 <= m < r2.len() && (#[trigger] r2[m]).in_bounds(wx, wy);
                                let k2: int = if m < j {
                                    m
                                } else {
                                    m + 1
                                };
                                if m < j && m == i {
                                    assert(r2[m] == nrg);
                                } else {
                                    assert(r2[m] == r1[k2]);
                                    assert(k2 != i && k2 != j);
                                }
                            }
                        }
                    }
                }
            }
            // Nothing that was covered loses its region.
            assert forall|wx: int, wy: int| #[trigger] world_covers(r1, wx, wy) implies
                world_covers(r2, wx, wy) by {
                let k = choose|k: int| 0 <= k < r1.len() && (#[trigger] r1[k]).in_bounds(wx, wy);
                if k == i || k == j {
                    assert(nrg.in_bounds(wx, wy));
                    assert(r2[i as int] == nrg);
                    assert(world_covers(r2, wx, wy));
                } else {
                    let ki: int = if k < j {
                        k
                    } else {
                        k - 1
                    };
                    assert(r2[ki] == r1[k]);
                    assert(world_covers(r2, wx, wy));
                }
            }
            // The merged world still agrees with itself everywhere.
            assert forall|m: int, wx: int, wy: int|
                0 <= m < r2.len() && #[trigger] r2[m].in_bounds(wx, wy) implies r2[m].cell_at(
                    wx,
                    wy,
                ) == world_cell(r2, wx, wy) by {
                if r2[m] == nrg {
                    assert(nrg.view_at(wx, wy) == Some(world_cell(r1, wx, wy)));
                } else {
                    let k: int = if m < j {
                        m
                    } else {
                        m + 1
                    };
                    assert(r2[m] == r1[k]);
                    assert(r1[k].cell_at(wx, wy) == world_cell(r1, wx, wy));
                }
            }
        }
    }

    /// Set the state of a cell in the world. Every region containing the
    /// coordinate takes the value; when none does, a small new region is
    /// created around the coordinate so that the write is never lost.
    #[verifier::rlimit(100)]
    pub fn set_cell(&mut self, x: isize, y: isize, state: Cell)
        requires
            old(self).wf(),
            x < isize::MAX,
            y < isize::MAX,
        ensures
            final(self).wf(),
            world_covers(final(self).regions@, x as int, y as int),
            forall|wx: int, wy: int|
                #[trigger] world_cell(final(self).regions@, wx, wy) == (if wx == x as int && wy == y
                    as int {
                    state
                } else {
                    world_cell(old(self).regions@, wx, wy)
                }),
            consistent(old(self).regions@) ==> consistent(final(self).regions@),
    {
        let n = self.regions.len();
        let mut i: usize = 0;
        let mut any: bool = false;
        while i < n
            invariant
                i <= n,
                self.wf(),
                n == self.regions@.len(),
                self.regions@.len() == old(self).regions@.len(),
                forall|j: int| i <= j < n ==> self.regions@[j] == old(self).regions@[j],
                forall|j: int|
                    0 <= j < i ==> set_result(
                        old(self).regions@[j],
                        #[trigger] self.regions@[j],
                        x as int,
                        y as int,
                        state,
                    ),
                any == (exists|j: int|
                    0 <= j < i && (#[trigger] old(self).regions@[j]).in_bounds(x as int, y as int)),
            decreases n - i,
        {
            if self.regions[i].pos_in_bounds(x, y) {
                let mut r = Region::new(0, 0, 0, 0);
                self.regions.set_and_swap(i, &mut r);
                r.set_cell(x, y, state);
                self.regions.set_and_swap(i, &mut r);
                any = true;
                assert(old(self).regions@[i as int].in_bounds(x as int, y as int));
            } else {
                assert(set_result(
                    old(self).regions@[i as int],
                    self.regions@[i as int],
                    x as int,
                    y as int,
                    state,
                ));
            }
            i += 1;
        }
        proof {
            lemma_world_view_covers(old(self).regions@, x as int, y as int);
            assert forall|j: int| 0 <= j < n implies (#[trigger] self.regions@[j]).view_at(
                x as int,
                y as int,
            ) == (if old(self).regions@[j].view_at(x as int, y as int) is Some {
                Some(state)
            } else {
                None
            }) by {
                assert(set_result(
                    old(self).regions@[j],
                    self.regions@[j],
                    x as int,
                    y as int,
                    state,
                ));
            }
            lemma_world_view_all_set(
                old(self).regions@,
                self.regions@,
                x as int,
                y as int,
                state,
            );
            assert forall|wx: int, wy: int|
                wx != x as int || wy != y as int implies world_view_at(self.regions@, wx, wy)
                == world_view_at(old(self).regions@, wx, wy) by {
                assert forall|j: int| 0 <= j < n implies (#[trigger] self.regions@[j]).view_at(
                    wx,
                    wy,
                ) == old(self).regions@[j].view_at(wx, wy) by {
                    assert(set_result(
                        old(self).regions@[j],
                        self.regions@[j],
                        x as int,
                        y as int,
                        state,
                    ));
                }
                lemma_world_view_congruence(old(self).regions@, self.regions@, wx, wy);
            }
        }
        if any {
            proof {
                let j = choose|j: int|
                    0 <= j < n && (#[trigger] old(self).regions@[j]).in_bounds(x as int, y as int);
                assert(set_result(
                    old(self).regions@[j],
                    self.regions@[j],
                    x as int,
                    y as int,
                    state,
                ));
                assert(self.regions@[j].in_bounds(x as int, y as int));
                assert(world_covers(self.regions@, x as int, y as int));
                assert(world_view_at(old(self).regions@, x as int, y as int) is Some);
                if consistent(old(self).regions@) {
                    lemma_consistent_after_update(
                        old(self).regions@,
                        self.regions@,
                        x as int,
                        y as int,
                        state,
                    );
                }
            }
            return;
        }
        // No region holds the coordinate: create a small one around it.
        let ax: isize = if x >= isize::MIN + 2 {
            x - 2
        } else {
            isize::MIN
        };
        let ay: isize = if y >= isize::MIN + 2 {
            y - 2
        } else {
            isize::MIN
        };
        let ex: isize = if x <= isize::MAX - 3 {
            x + 2
        } else {
            isize::MAX - 1
        };
        let ey: isize = if y <= isize::MAX - 3 {
            y + 2
        } else {
            isize::MAX - 1
        };
        let w: usize = (((ex as i128) - (ax as i128)) as usize) + 1;
        let h: usize = (((ey as i128) - (ay as i128)) as usize) + 1;
        let mut nr = Region::new(ax, ay, w, h);
        // Seed the new region from the world, so that it agrees with any
        // region it happens to overlap.
        self.populate_region(&mut nr);
        nr.set_cell(x, y, state);
        assert(nr.in_bounds(x as int, y as int));
        assert(nr.view_at(x as int, y as int) == Some(state));
        assert forall|wx: int, wy: int|
            wx != x as int || wy != y as int implies #[trigger] nr.view_at(wx, wy) is None
            || nr.view_at(wx, wy) == Some(world_cell(self.regions@, wx, wy)) by {}
        let ghost before = self.regions@;
        self.regions.push(nr);
        proof {
            assert forall|wx: int, wy: int| #[trigger] world_cell(self.regions@, wx, wy) == (if wx
                == x as int && wy == y as int {
                state
            } else {
                world_cell(old(self).regions@, wx, wy)
            }) by {
                lemma_world_view_push(before, nr, wx, wy);
                if wx == x as int && wy == y as int {
                    assert(world_view_at(old(self).regions@, wx, wy) is None);
                    assert(world_view_at(before, wx, wy) is None);
                } else {
                    assert(world_view_at(before, wx, wy) == world_view_at(
                        old(self).regions@,
                        wx,
                        wy,
                    ));
                }
            }
            assert(self.regions@[n as int].in_bounds(x as int, y as int));
            assert(world_covers(self.regions@, x as int, y as int));
            if consistent(old(self).regions@) {
                assert(!world_covers(old(self).regions@, x as int, y as int));
                assert forall|k: int| 0 <= k < n implies !(#[trigger] before[k]).in_bounds(
                    x as int,
                    y as int,
                ) by {
                    assert(set_result(
                        old(self).regions@[k],
                        before[k],
                        x as int,
                        y as int,
                        state,
                    ));
                }
                assert(!world_covers(before, x as int, y as int));
                lemma_consistent_after_update(
                    old(self).regions@,
                    before,
                    x as int,
                    y as int,
                    state,
                );
                assert forall|wx: int, wy: int|
                    (wx != x as int || wy != y as int) implies (#[trigger] nr.view_at(wx, wy)
                        is None || nr.view_at(wx, wy) == Some(world_cell(before, wx, wy))) by {}
                lemma_consistent_after_push(before, nr, x as int, y as int, state);
            }
        }
    }
}

/// Writing one cell into every region that holds its coordinate keeps the
/// regions agreeing with the world.
proof fn lemma_consistent_after_update(r1: Seq<Region>, r2: Seq<Region>, x: int, y: int, c: Cell)
    requires
        consistent(r1),
        r1.len() == r2.len(),
        forall|k: int| 0 <= k < r1.len() ==> set_result(r1[k], #[trigger] r2[k], x, y, c),
        forall|wx: int, wy: int|
            (wx != x || wy != y) ==> #[trigger] world_cell(r2, wx, wy) == world_cell(r1, wx, wy),
        world_covers(r1, x, y) ==> world_cell(r2, x, y) == c,
        !world_covers(r1, x, y) ==> world_cell(r2, x, y) == world_cell(r1, x, y),
    ensures
        consistent(r2),
{
    assert forall|k: int, wx: int, wy: int|
        0 <= k < r2.len() && #[trigger] r2[k].in_bounds(wx, wy) implies r2[k].cell_at(wx, wy)
        == world_cell(r2, wx, wy) by {
        assert(set_result(r1[k], r2[k], x, y, c));
        assert(r1[k].in_bounds(wx, wy));
        if wx == x && wy == y {
            assert(world_covers(r1, x, y));
            assert(r2[k].view_at(wx, wy) == Some(c));
        } else {
            assert(r2[k].view_at(wx, wy) == r1[k].view_at(wx, wy));
            assert(r1[k].cell_at(wx, wy) == world_cell(r1, wx, wy));
        }
    }
}

/// Appending a region that shows the written cell at the written coordinate
/// and the world's own cells everywhere else keeps the regions agreeing.
proof fn lemma_consistent_after_push(r1: Seq<Region>, nr: Region, x: int, y: int, c: Cell)
    requires
        consistent(r1),
        !world_covers(r1, x, y),
        nr.view_at(x, y) == Some(c),
        forall|wx: int, wy: int|
            (wx != x || wy != y) ==> (#[trigger] nr.view_at(wx, wy) is None || nr.view_at(wx, wy)
                == Some(world_cell(r1, wx, wy))),
        forall|wx: int, wy: int|
            (wx != x || wy != y) ==> #[trigger] world_cell(r1.push(nr), wx, wy) == world_cell(
                r1,
                wx,
                wy,
            ),
        world_cell(r1.push(nr), x, y) == c,
    ensures
        consistent(r1.push(nr)),
{
    let r2 = r1.push(nr);
    assert forall|k: int, wx: int, wy: int|
        0 <= k < r2.len() && #[trigger] r2[k].in_bounds(wx, wy) implies r2[k].cell_at(wx, wy)
        == world_cell(r2, wx, wy) by {
        if k < r1.len() {
            assert(r2[k] == r1[k]);
            assert(r1[k].cell_at(wx, wy) == world_cell(r1, wx, wy));
            assert(!(wx == x && wy == y));
        } else {
            assert(r2[k] == nr);
            if wx == x && wy == y {
            } else {
                assert(nr.view_at(wx, wy) is Some);
            }
        }
    }
}

/// A `width` by `height` buffer of dead cells.
fn dead_grid(width: usize, height: usize) -> (g: Vec<Vec<Cell>>)
    ensures
        g@.len() == width,
        forall|i: int| 0 <= i < width ==> (#[trigger] g@[i])@.len() == height,
        forall|i: int, j: int|
            0 <= i < width && 0 <= j < height ==> g@[i]@[j] == Cell::Dead,
{
    let mut g: Vec<Vec<Cell>> = Vec::new();
    let mut i: usize = 0;
    while i < width
        invariant
            i <= width,
            g@.len() == i,
            forall|a: int| 0 <= a < i ==> (#[trigger] g@[a])@.len() == height,
            forall|a: int, b: int| 0 <= a < i && 0 <= b < height ==> g@[a]@[b] == Cell::Dead,
        decreases width - i,
    {
        let mut col: Vec<Cell> = Vec::new();
        let mut j: usize = 0;
        while j < height
            invariant
                j <= height,
                col@.len() == j,
                forall|b: int| 0 <= b < j ==> col@[b] == Cell::Dead,
            decreases height - j,
        {
            col.push(Cell::Dead);
            j += 1;
        }
        g.push(col);
        i += 1;
    }
    g
}

} // verus!
