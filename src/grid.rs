//! The occupancy grid: a row-major array of cells, each with an optional
//! classification and four class logits held in thousandths.
use vstd::prelude::*;

verus! {

/// Largest magnitude of a stored logit, in thousandths (a logit of 6.0).
pub const LOGIT_CLAMP: i32 = 6000;

/// What a cell, or an entity that a probe hit, is.
#[derive(Clone, Copy, Debug, PartialEq, Eq, Structural)]
pub enum EntityType {
    Wall,
    Empty,
    Flag,
    CapturePoint,
    Unknown,
}

/// One of the four classes that a cell carries a logit for.
#[derive(Clone, Copy, Debug, PartialEq, Eq, Structural)]
pub enum LogitClass {
    Free,
    Wall,
    Flag,
    CapturePoint,
}

/// Why a grid access was refused.
#[derive(Clone, Copy, Debug, PartialEq, Eq, Structural)]
pub enum GridError {
    IndexOutOfBounds,
}

/// `v` limited to `[-LOGIT_CLAMP, LOGIT_CLAMP]`.
pub open spec fn clamp_logit(v: int) -> int {
    if v < -LOGIT_CLAMP {
        -LOGIT_CLAMP as int
    } else if v > LOGIT_CLAMP {
        LOGIT_CLAMP as int
    } else {
        v
    }
}

/// A logit lies in the stored range.
pub open spec fn logit_in_range(v: i32) -> bool {
    -LOGIT_CLAMP <= v <= LOGIT_CLAMP
}

/// One cell of the grid.
#[derive(Clone, Copy, Debug, PartialEq, Eq, Structural)]
pub struct OccupancyGridEntry {
    pub assignment: Option<EntityType>,
    pub logit_free: i32,
    pub logit_wall: i32,
    pub logit_flag: i32,
    pub logit_capture_point: i32,
}

impl OccupancyGridEntry {
    /// All four logits lie in the stored range.
    pub open spec fn wf(self) -> bool {
        &&& logit_in_range(self.logit_free)
        &&& logit_in_range(self.logit_wall)
        &&& logit_in_range(self.logit_flag)
        &&& logit_in_range(self.logit_capture_point)
    }

    pub open spec fn logit_of(self, class: LogitClass) -> i32 {
        match class {
            LogitClass::Free => self.logit_free,
            LogitClass::Wall => self.logit_wall,
            LogitClass::Flag => self.logit_flag,
            LogitClass::CapturePoint => self.logit_capture_point,
        }
    }

    pub open spec fn with_logit(self, class: LogitClass, v: i32) -> OccupancyGridEntry {
        match class {
            LogitClass::Free => OccupancyGridEntry { logit_free: v, ..self },
            LogitClass::Wall => OccupancyGridEntry { logit_wall: v, ..self },
            LogitClass::Flag => OccupancyGridEntry { logit_flag: v, ..self },
            LogitClass::CapturePoint => OccupancyGridEntry { logit_capture_point: v, ..self },
        }
    }

    /// The neutral cell: unassigned, every logit zero.
    pub open spec fn neutral() -> OccupancyGridEntry {
        OccupancyGridEntry {
            assignment: None,
            logit_free: 0,
            logit_wall: 0,
            logit_flag: 0,
            logit_capture_point: 0,
        }
    }

    /// A cell that is certainly of class `t`: its own logit saturated high,
    /// the other three saturated low.
    pub open spec fn saturated(t: EntityType) -> OccupancyGridEntry {
        OccupancyGridEntry {
            assignment: Some(t),
            logit_free: if t == EntityType::Empty { LOGIT_CLAMP } else { (-LOGIT_CLAMP) as i32 },
            logit_wall: if t == EntityType::Wall { LOGIT_CLAMP } else { (-LOGIT_CLAMP) as i32 },
            logit_flag: if t == EntityType::Flag { LOGIT_CLAMP } else { (-LOGIT_CLAMP) as i32 },
            logit_capture_point: if t == EntityType::CapturePoint { LOGIT_CLAMP } else { (-LOGIT_CLAMP) as i32 },
        }
    }

    /// The neutral cell.
    pub fn new_neutral() -> (r: OccupancyGridEntry)
        ensures
            r == OccupancyGridEntry::neutral(),
    {
        OccupancyGridEntry {
            assignment: None,
            logit_free: 0,
            logit_wall: 0,
            logit_flag: 0,
            logit_capture_point: 0,
        }
    }

    /// A cell that is certainly of class `t`.
    pub fn new_saturated(t: EntityType) -> (r: OccupancyGridEntry)
        ensures
            r == OccupancyGridEntry::saturated(t),
            r.wf(),
    {
        OccupancyGridEntry {
            assignment: Some(t),
            logit_free: if t == EntityType::Empty { LOGIT_CLAMP } else { -LOGIT_CLAMP },
            logit_wall: if t == EntityType::Wall { LOGIT_CLAMP } else { -LOGIT_CLAMP },
            logit_flag: if t == EntityType::Flag { LOGIT_CLAMP } else { -LOGIT_CLAMP },
            logit_capture_point: if t == EntityType::CapturePoint { LOGIT_CLAMP } else { -LOGIT_CLAMP },
        }
    }

    /// The logit of `class`.
    pub fn logit(&self, class: LogitClass) -> (r: i32)
        ensures
            r == self.logit_of(class),
    {
        match class {
            LogitClass::Free => self.logit_free,
            LogitClass::Wall => self.logit_wall,
            LogitClass::Flag => self.logit_flag,
            LogitClass::CapturePoint => self.logit_capture_point,
        }
    }
}

/// `v` limited to `[-LOGIT_CLAMP, LOGIT_CLAMP]`.
pub fn clamp_to_logit_range(v: i32) -> (r: i32)
    ensures
        r as int == clamp_logit(v as int),
        logit_in_range(r),
{
    if v < -LOGIT_CLAMP {
        -LOGIT_CLAMP
    } else if v > LOGIT_CLAMP {
        LOGIT_CLAMP
    } else {
        v
    }
}

/// A `width` by `height` grid of cells, `cell_size` thousandths of a world
/// unit on a side, stored row by row: cell `(col, row)` is at
/// `col + row * width`.
pub struct OccupancyGrid {
    grid: Vec<OccupancyGridEntry>,
    cell_size: u32,
    width: usize,
    height: usize,
}

impl OccupancyGrid {
    /// The cells, row by row.
    pub closed spec fn cells(&self) -> Seq<OccupancyGridEntry> {
        self.grid@
    }

    pub closed spec fn spec_width(&self) -> nat {
        self.width as nat
    }

    pub closed spec fn spec_height(&self) -> nat {
        self.height as nat
    }

    pub closed spec fn spec_cell_size(&self) -> nat {
        self.cell_size as nat
    }

    /// The array holds `width * height` cells, each with logits in range.
    pub open spec fn wf(&self) -> bool {
        &&& self.cells().len() == self.spec_width() * self.spec_height()
        &&& self.spec_width() * self.spec_height() <= usize::MAX
        &&& forall|i: int| 0 <= i < self.cells().len() ==> (#[trigger] self.cells()[i]).wf()
    }

    /// Whether `(col, row)` lies on the grid.
    pub open spec fn in_bounds(&self, col: int, row: int) -> bool {
        0 <= col < self.spec_width() && 0 <= row < self.spec_height()
    }

    /// The index of `(col, row)` in the row-major array.
    pub open spec fn index_of(&self, col: int, row: int) -> int {
        col + row * self.spec_width()
    }

    /// A grid of `width * height` neutral cells.
    pub fn new(width: usize, height: usize, cell_size: u32) -> (r: OccupancyGrid)
        requires
            width * height <= usize::MAX,
        ensures
            r.wf(),
            r.spec_width() == width,
            r.spec_height() == height,
            r.spec_cell_size() == cell_size,
            forall|i: int| 0 <= i < r.cells().len() ==> r.cells()[i] == OccupancyGridEntry::neutral(),
    {
        let n: usize = width * height;
        let mut grid: Vec<OccupancyGridEntry> = Vec::with_capacity(n);
        let mut i: usize = 0;
        while i < n
            invariant
                i <= n,
                grid@.len() == i,
                forall|k: int| 0 <= k < i ==> grid@[k] == OccupancyGridEntry::neutral(),
            decreases n - i,
        {
            grid.push(OccupancyGridEntry::new_neutral());
            i = i + 1;
        }
        OccupancyGrid { grid, cell_size, width, height }
    }

    /// Number of columns.
    pub fn width(&self) -> (r: usize)
        ensures
            r == self.spec_width(),
    {
        self.width
    }

    /// Number of rows.
    pub fn height(&self) -> (r: usize)
        ensures
            r == self.spec_height(),
    {
        self.height
    }

    /// `(width, height)`.
    pub fn shape(&self) -> (r: (usize, usize))
        ensures
            r.0 == self.spec_width(),
            r.1 == self.spec_height(),
    {
        (self.width, self.height)
    }

    /// Side of a cell, in thousandths of a world unit.
    pub fn cell_size(&self) -> (r: u32)
        ensures
            r == self.spec_cell_size(),
    {
        self.cell_size
    }

    /// Number of cells.
    pub fn len(&self) -> (r: usize)
        ensures
            r == self.cells().len(),
    {
        self.grid.len()
    }

    /// The index of `(col, row)`, or an index error when it lies off the grid.
    pub fn index(&self, col: usize, row: usize) -> (r: Result<usize, GridError>)
        requires
            self.wf(),
        ensures
            self.in_bounds(col as int, row as int) ==> r is Ok && r->Ok_0 as int == self.index_of(
                col as int,
                row as int,
            ),
            !self.in_bounds(col as int, row as int) ==> r == Err::<usize, GridError>(
                GridError::IndexOutOfBounds,
            ),
            r is Ok ==> r->Ok_0 < self.cells().len(),
    {
        if col >= self.width || row >= self.height {
            return Err(GridError::IndexOutOfBounds);
        }
        proof {
            lemma_index_in_range(col as int, row as int, self.width as int, self.height as int);
        }
        Ok(col + row * self.width)
    }

    /// The cell at a flat index.
    pub fn entry_at(&self, i: usize) -> (r: OccupancyGridEntry)
        requires
            i < self.cells().len(),
        ensures
            r == self.cells()[i as int],
    {
        self.grid[i]
    }

    /// The cell at `(col, row)`.
    pub fn get(&self, col: usize, row: usize) -> (r: Result<OccupancyGridEntry, GridError>)
        requires
            self.wf(),
        ensures
            self.in_bounds(col as int, row as int) ==> r == Ok::<OccupancyGridEntry, GridError>(
                self.cells()[self.index_of(col as int, row as int)],
            ),
            !self.in_bounds(col as int, row as int) ==> r == Err::<OccupancyGridEntry, GridError>(
                GridError::IndexOutOfBounds,
            ),
    {
        let i = match self.index(col, row) {
            Ok(i) => i,
            Err(e) => return Err(e),
        };
        Ok(self.grid[i])
    }

    /// The classification of `(col, row)`.
    pub fn assignment(&self, col: usize, row: usize) -> (r: Result<Option<EntityType>, GridError>)
        requires
            self.wf(),
        ensures
            self.in_bounds(col as int, row as int) ==> r == Ok::<Option<EntityType>, GridError>(
                self.cells()[self.index_of(col as int, row as int)].assignment,
            ),
            !self.in_bounds(col as int, row as int) ==> r == Err::<Option<EntityType>, GridError>(
                GridError::IndexOutOfBounds,
            ),
    {
        let i = match self.index(col, row) {
            Ok(i) => i,
            Err(e) => return Err(e),
        };
        Ok(self.grid[i].assignment)
    }

    /// The logit of `class` at `(col, row)`.
    pub fn logit(&self, col: usize, row: usize, class: LogitClass) -> (r: Result<i32, GridError>)
        requires
            self.wf(),
        ensures
            self.in_bounds(col as int, row as int) ==> r == Ok::<i32, GridError>(
                self.cells()[self.index_of(col as int, row as int)].logit_of(class),
            ),
            !self.in_bounds(col as int, row as int) ==> r == Err::<i32, GridError>(
                GridError::IndexOutOfBounds,
            ),
    {
        let i = match self.index(col, row) {
            Ok(i) => i,
            Err(e) => return Err(e),
        };
        Ok(self.grid[i].logit(class))
    }

    /// Sets the classification of `(col, row)`; the logits stay.
    pub fn set_assignment(&mut self, col: usize, row: usize, value: Option<EntityType>) -> (r: Result<(), GridError>)
        requires
            old(self).wf(),
        ensures
            final(self).wf(),
            final(self).spec_width() == old(self).spec_width(),
            final(self).spec_height() == old(self).spec_height(),
            final(self).spec_cell_size() == old(self).spec_cell_size(),
            old(self).in_bounds(col as int, row as int) ==> {
                &&& r is Ok
                &&& final(self).cells() == old(self).cells().update(
                    old(self).index_of(col as int, row as int),
                    OccupancyGridEntry {
                        assignment: value,
                        ..old(self).cells()[old(self).index_of(col as int, row as int)]
                    },
                )
            },
            !old(self).in_bounds(col as int, row as int) ==> {
                &&& r == Err::<(), GridError>(GridError::IndexOutOfBounds)
                &&& final(self).cells() == old(self).cells()
            },
    {
        let i = match self.index(col, row) {
            Ok(i) => i,
            Err(e) => return Err(e),
        };
        self.set_assignment_at(i, value);
        Ok(())
    }

    /// Stores `value`, limited to `[-LOGIT_CLAMP, LOGIT_CLAMP]`, as the logit
    /// of `class` at `(col, row)`.
    pub fn set_logit(&mut self, col: usize, row: usize, class: LogitClass, value: i32) -> (r: Result<(), GridError>)
        requires
            old(self).wf(),
        ensures
            final(self).wf(),
            final(self).spec_width() == old(self).spec_width(),
            final(self).spec_height() == old(self).spec_height(),
            final(self).spec_cell_size() == old(self).spec_cell_size(),
            old(self).in_bounds(col as int, row as int) ==> {
                &&& r is Ok
                &&& final(self).cells() == old(self).cells().update(
                    old(self).index_of(col as int, row as int),
                    old(self).cells()[old(self).index_of(col as int, row as int)].with_logit(
                        class,
                        clamp_logit(value as int) as i32,
                    ),
                )
            },
            !old(self).in_bounds(col as int, row as int) ==> {
                &&& r == Err::<(), GridError>(GridError::IndexOutOfBounds)
                &&& final(self).cells() == old(self).cells()
            },
    {
        let i = match self.index(col, row) {
            Ok(i) => i,
            Err(e) => return Err(e),
        };
        let v = clamp_to_logit_range(value);
        let mut e = self.grid[i];
        match class {
            LogitClass::Free => e.logit_free = v,
            LogitClass::Wall => e.logit_wall = v,
            LogitClass::Flag => e.logit_flag = v,
            LogitClass::CapturePoint => e.logit_capture_point = v,
        }
        self.grid.set(i, e);
        proof {
            assert forall|k: int| 0 <= k < self.cells().len() implies (#[trigger] self.cells()[k]).wf() by {
                if k != i as int {
                    assert(self.cells()[k] == old(self).cells()[k]);
                }
            }
        }
        Ok(())
    }

    /// Sets the classification of the cell at a flat index.
    pub fn set_assignment_at(&mut self, i: usize, value: Option<EntityType>)
        requires
            old(self).wf(),
            i < old(self).cells().len(),
        ensures
            final(self).wf(),
            final(self).spec_width() == old(self).spec_width(),
            final(self).spec_height() == old(self).spec_height(),
            final(self).spec_cell_size() == old(self).spec_cell_size(),
            final(self).cells() == old(self).cells().update(
                i as int,
                OccupancyGridEntry { assignment: value, ..old(self).cells()[i as int] },
            ),
    {
        let mut e = self.grid[i];
        e.assignment = value;
        self.grid.set(i, e);
        proof {
            assert forall|k: int| 0 <= k < self.cells().len() implies (#[trigger] self.cells()[k]).wf() by {
                if k != i as int {
                    assert(self.cells()[k] == old(self).cells()[k]);
                }
            }
        }
    }

    /// Replaces the cell at a flat index by one that is certainly of class `t`.
    pub fn stamp_at(&mut self, i: usize, t: EntityType)
        requires
            old(self).wf(),
            i < old(self).cells().len(),
        ensures
            final(self).wf(),
            final(self).spec_width() == old(self).spec_width(),
            final(self).spec_height() == old(self).spec_height(),
            final(self).spec_cell_size() == old(self).spec_cell_size(),
            final(self).cells() == old(self).cells().update(i as int, OccupancyGridEntry::saturated(t)),
    {
        let e = OccupancyGridEntry::new_saturated(t);
        self.grid.set(i, e);
        proof {
            assert forall|k: int| 0 <= k < self.cells().len() implies (#[trigger] self.cells()[k]).wf() by {
                if k != i as int {
                    assert(self.cells()[k] == old(self).cells()[k]);
                }
            }
        }
    }
}

/// A cell on a `width` by `height` grid has a flat index below `width * height`.
pub proof fn lemma_index_in_range(col: int, row: int, width: int, height: int)
    requires
        0 <= col < width,
        0 <= row < height,
    ensures
        0 <= col + row * width < width * height,
{
    assert(0 <= col + row * width < width * height) by (nonlinear_arith)
        requires
            0 <= col < width,
            0 <= row < height,
    ;
}

/// Writing a logit and reading it back gives the written value limited to
/// `[-LOGIT_CLAMP, LOGIT_CLAMP]`, for every cell on the grid and every class.
pub proof fn lemma_set_then_get_logit(
    before: OccupancyGrid,
    after: OccupancyGrid,
    col: int,
    row: int,
    class: LogitClass,
    value: i32,
)
    requires
        before.wf(),
        before.in_bounds(col, row),
        after.spec_width() == before.spec_width(),
        after.cells() == before.cells().update(
            before.index_of(col, row),
            before.cells()[before.index_of(col, row)].with_logit(class, clamp_logit(value as int) as i32),
        ),
    ensures
        after.cells()[after.index_of(col, row)].logit_of(class) == clamp_logit(value as int),
{
    lemma_index_in_range(col, row, before.spec_width() as int, before.spec_height() as int);
}


/// The colour, as `(r, g, b, a)`, that a cell of the given class is drawn in.
pub open spec fn cell_color(a: Option<EntityType>) -> Seq<u8> {
    match a {
        Some(EntityType::Wall) => seq![0u8, 0u8, 0u8, 200u8],
        Some(EntityType::Empty) => seq![0u8, 0u8, 0u8, 0u8],
        Some(EntityType::Flag) => seq![219u8, 112u8, 147u8, 200u8],
        Some(EntityType::CapturePoint) => seq![199u8, 21u8, 133u8, 200u8],
        _ => seq![127u8, 127u8, 127u8, 100u8],
    }
}

/// The grid as an RGBA image, four bytes per cell in row-major order, each
/// cell in the colour of its class.
pub fn encode_grid_to_rgba(g: &OccupancyGrid) -> (r: Vec<u8>)
    ensures
        r@.len() == 4 * g.cells().len(),
        forall|i: int, k: int| 0 <= i < g.cells().len() && 0 <= k < 4 ==> #[trigger] r@[4 * i + k] == cell_color(
            g.cells()[i].assignment,
        )[k],
{
    let n = g.len();
    let mut out: Vec<u8> = Vec::new();
    let mut i: usize = 0;
    while i < n
        invariant
            i <= n,
            n == g.cells().len(),
            out@.len() == 4 * i,
            forall|j: int, k: int| 0 <= j < i && 0 <= k < 4 ==> #[trigger] out@[4 * j + k] == cell_color(
                g.cells()[j].assignment,
            )[k],
        decreases n - i,
    {
        let (r, gr, b, a): (u8, u8, u8, u8) = match g.entry_at(i).assignment {
            Some(EntityType::Wall) => (0, 0, 0, 200),
            Some(EntityType::Empty) => (0, 0, 0, 0),
            Some(EntityType::Flag) => (219, 112, 147, 200),
            Some(EntityType::CapturePoint) => (199, 21, 133, 200),
            _ => (127, 127, 127, 100),
        };
        let ghost prior = out@;
        out.push(r);
        out.push(gr);
        out.push(b);
        out.push(a);
        proof {
            assert forall|j: int, k: int| 0 <= j < i + 1 && 0 <= k < 4 implies #[trigger] out@[4 * j + k] == cell_color(
                g.cells()[j].assignment,
            )[k] by {
                if j < i {
                    assert(4 * j + k < 4 * i);
                    assert(out@[4 * j + k] == prior[4 * j + k]);
                }
            }
        }
        i = i + 1;
    }
    out
}

} // verus!
