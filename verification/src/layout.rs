//! Where the grid lies in the window: how cells and pixels map to each other,
//! and the points between which a path is drawn.

use vstd::prelude::*;

verus! {

/// The measures of the window and of the grid drawn in it, in pixels.
#[derive(Debug, Clone, Copy)]
pub struct GridLayout {
    pub window_width: u32,
    pub window_height: u32,
    /// The space above and below the grid.
    pub vertical_padding: u32,
    /// The space to the left and to the right of the grid.
    pub horizontal_padding: u32,
    /// The width of the grid lines.
    pub grid_line_width: u32,
    /// The number of columns of the grid.
    pub grid_n_cell_width: u32,
    /// The number of rows of the grid.
    pub grid_n_cell_height: u32,
    /// The side of a cell, its grid line included.
    pub grid_cell_dim: u32,
    /// The width of the line that shows a path.
    pub path_line_width: u32,
}

impl GridLayout {
    /// The layout of a grid of ten by ten cells in a window of the given
    /// size: 270 pixels are left free to the left and to the right of the
    /// grid and 30 above and below it, the grid lines are 2 pixels wide and
    /// the path line 10, and the cells fill the height that remains.
    pub fn new(window_width: u32, window_height: u32) -> (layout: Self)
        requires
            window_height >= 60,
        ensures
            layout == (GridLayout {
                window_width,
                window_height,
                vertical_padding: 30,
                horizontal_padding: 270,
                grid_line_width: 2,
                grid_n_cell_width: 10,
                grid_n_cell_height: 10,
                grid_cell_dim: ((window_height - 60) / 10) as u32,
                path_line_width: 10,
            }),
    {
        let vertical_padding: u32 = 30;
        let grid_n_cell_width: u32 = 10;
        let grid_n_cell_height: u32 = 10;
        GridLayout {
            window_width,
            window_height,
            horizontal_padding: 270,
            vertical_padding,
            grid_line_width: 2,
            grid_n_cell_width,
            grid_n_cell_height,
            grid_cell_dim: (window_height - 2 * vertical_padding) / grid_n_cell_height,
            path_line_width: 10,
        }
    }

    /// Whether the pixel lies in the part of the window that the grid may
    /// fill: not in the padding.
    pub open spec fn on_grid(self, screen: (u32, u32)) -> bool {
        &&& self.horizontal_padding <= screen.0 <= self.window_width - self.horizontal_padding
        &&& self.vertical_padding <= screen.1 <= self.window_height - self.vertical_padding
    }

    /// The cell in which the pixel lies, if it lies on the grid. The pixels
    /// of a grid line belong to the cell to its right, or below it.
    pub open spec fn cell_at(self, screen: (u32, u32)) -> Option<(u32, u32)> {
        if self.on_grid(screen) {
            Some(
                (
                    ((screen.0 - self.horizontal_padding) / (self.grid_cell_dim as int)) as u32,
                    ((screen.1 - self.vertical_padding) / (self.grid_cell_dim as int)) as u32,
                ),
            )
        } else {
            None
        }
    }

    /// The cell in which the pixel `screen` lies, if it lies on the grid.
    ///
    /// A layout whose padding is wider than its window has no grid, and one
    /// whose cells have no size has no cells: such a layout must not be
    /// asked about a pixel that the comparison with its measures reaches.
    pub fn screen_to_grid_coord(&self, screen: (u32, u32)) -> (cell: Option<(u32, u32)>)
        requires
            screen.0 >= self.horizontal_padding ==> self.horizontal_padding <= self.window_width,
            screen.0 >= self.horizontal_padding && screen.0 <= self.window_width
                - self.horizontal_padding && screen.1 >= self.vertical_padding
                ==> self.vertical_padding <= self.window_height,
            self.on_grid(screen) ==> self.grid_cell_dim > 0,
        ensures
            cell == self.cell_at(screen),
    {
        let (screen_x, screen_y) = screen;
        if screen_x < self.horizontal_padding || screen_x > self.window_width
            - self.horizontal_padding || screen_y < self.vertical_padding || screen_y
            > self.window_height - self.vertical_padding {
            return None;
        }
        Some(
            (
                (screen_x - self.horizontal_padding) / self.grid_cell_dim,
                (screen_y - self.vertical_padding) / self.grid_cell_dim,
            ),
        )
    }

    /// The pixel at the top left corner of the inside of a cell: where a
    /// drawing of the cell starts so that it does not cover the grid line.
    pub open spec fn corner_of(self, grid: (u32, u32)) -> (int, int) {
        (
            self.horizontal_padding + grid.0 * self.grid_cell_dim + self.grid_line_width / 2,
            self.vertical_padding + grid.1 * self.grid_cell_dim + self.grid_line_width / 2,
        )
    }

    /// Whether the top left corner of the inside of the cell `grid` has
    /// coordinates that fit the window's number range.
    pub fn has_corner(&self, grid: (u32, u32)) -> (r: bool)
        ensures
            r == (self.corner_of(grid).0 <= u32::MAX && self.corner_of(grid).1 <= u32::MAX),
    {
        let half = (self.grid_line_width / 2) as u128;
        let cell = self.grid_cell_dim as u128;
        assert(grid.0 * self.grid_cell_dim <= 0xffff_ffff * 0xffff_ffff) by (nonlinear_arith)
            requires
                0 <= grid.0 <= 0xffff_ffff,
                0 <= self.grid_cell_dim <= 0xffff_ffff,
        ;
        assert(grid.1 * self.grid_cell_dim <= 0xffff_ffff * 0xffff_ffff) by (nonlinear_arith)
            requires
                0 <= grid.1 <= 0xffff_ffff,
                0 <= self.grid_cell_dim <= 0xffff_ffff,
        ;
        let x = self.horizontal_padding as u128 + grid.0 as u128 * cell + half;
        let y = self.vertical_padding as u128 + grid.1 as u128 * cell + half;
        x <= u32::MAX as u128 && y <= u32::MAX as u128
    }

    /// The pixel at the top left corner of the inside of the cell `grid`.
    /// The pixel must have coordinates that fit the window's number range.
    pub fn grid_to_screen_coord(&self, grid: (u32, u32)) -> (screen: (u32, u32))
        requires
            self.corner_of(grid).0 <= u32::MAX,
            self.corner_of(grid).1 <= u32::MAX,
        ensures
            screen.0 == self.corner_of(grid).0,
            screen.1 == self.corner_of(grid).1,
    {
        let (grid_x, grid_y) = grid;
        assert(grid_x * self.grid_cell_dim >= 0) by (nonlinear_arith);
        assert(grid_y * self.grid_cell_dim >= 0) by (nonlinear_arith);
        (
            self.horizontal_padding + grid_x * self.grid_cell_dim + self.grid_line_width / 2,
            self.vertical_padding + grid_y * self.grid_cell_dim + self.grid_line_width / 2,
        )
    }

    /// The pixel at the centre of a cell.
    pub open spec fn center_of(self, grid: (u32, u32)) -> (int, int) {
        (
            self.corner_of(grid).0 + (self.grid_cell_dim - self.grid_line_width) / 2,
            self.corner_of(grid).1 + (self.grid_cell_dim - self.grid_line_width) / 2,
        )
    }

    /// Whether the centre of the cell can be computed: the grid lines are no
    /// wider than a cell, and the coordinates of the centre fit the window's
    /// number range.
    pub open spec fn has_center(self, grid: (u32, u32)) -> bool {
        &&& self.grid_line_width <= self.grid_cell_dim
        &&& self.center_of(grid).0 <= u32::MAX
        &&& self.center_of(grid).1 <= u32::MAX
    }

    /// Whether the centre of the cell `grid` can be computed.
    pub fn cell_has_center(&self, grid: (u32, u32)) -> (r: bool)
        ensures
            r == self.has_center(grid),
    {
        if self.grid_line_width > self.grid_cell_dim || !self.has_corner(grid) {
            return false;
        }
        let (x, y) = self.grid_to_screen_coord(grid);
        let inset = (self.grid_cell_dim - self.grid_line_width) / 2;
        x as u64 + inset as u64 <= u32::MAX as u64 && y as u64 + inset as u64 <= u32::MAX as u64
    }

    /// The pixel at the centre of the cell `grid`.
    pub fn grid_to_screen_coord_center(&self, grid: (u32, u32)) -> (screen: (u32, u32))
        requires
            self.has_center(grid),
        ensures
            screen.0 == self.center_of(grid).0,
            screen.1 == self.center_of(grid).1,
    {
        let (x, y) = self.grid_to_screen_coord(grid);
        (
            x + (self.grid_cell_dim - self.grid_line_width) / 2,
            y + (self.grid_cell_dim - self.grid_line_width) / 2,
        )
    }

    /// Whether a path line can be drawn through the cell: the cell has a
    /// centre, and half the width of the path line can be taken off and
    /// put onto its coordinates.
    pub open spec fn can_draw_through(self, grid: (u32, u32)) -> bool {
        &&& self.has_center(grid)
        &&& self.path_line_width / 2 <= self.center_of(grid).0
        &&& self.path_line_width / 2 <= self.center_of(grid).1
        &&& self.center_of(grid).0 + self.path_line_width / 2 <= u32::MAX
        &&& self.center_of(grid).1 + self.path_line_width / 2 <= u32::MAX
    }

    /// Whether a path line can be drawn through each cell of `cpath`.
    pub fn can_draw(&self, cpath: &Vec<(u32, u32)>) -> (r: bool)
        ensures
            r == forall|i: int|
                0 <= i < cpath@.len() ==> self.can_draw_through(#[trigger] cpath@[i]),
    {
        let half = self.path_line_width / 2;
        let mut k: usize = 0;
        while k < cpath.len()
            invariant
                k <= cpath@.len(),
                half == self.path_line_width / 2,
                forall|i: int| 0 <= i < k ==> self.can_draw_through(#[trigger] cpath@[i]),
            decreases cpath.len() - k,
        {
            if !self.cell_has_center(cpath[k]) {
                assert(!self.can_draw_through(cpath@[k as int]));
                return false;
            }
            let (x, y) = self.grid_to_screen_coord_center(cpath[k]);
            if x < half || y < half || x as u64 + half as u64 > u32::MAX as u64 || y as u64
                + half as u64 > u32::MAX as u64 {
                assert(!self.can_draw_through(cpath@[k as int]));
                return false;
            }
            k = k + 1;
        }
        true
    }

    /// The two points that the corner `cur` of a path adds to its drawing,
    /// when the path comes from `prev`: the centre of `cur` moved on by half
    /// the width of the path line, so that the segment that ends here fills
    /// the corner, and the centre itself, where the next segment starts. A
    /// segment between two cells of one row is moved on along the row, any
    /// other along the column.
    pub open spec fn joint(self, prev: (u32, u32), cur: (u32, u32)) -> Seq<(int, int)> {
        let (x, y) = self.center_of(cur);
        let half = (self.path_line_width / 2) as int;
        if cur.1 == prev.1 {
            if cur.0 < prev.0 {
                seq![(x - half, y), (x, y)]
            } else {
                seq![(x + half, y), (x, y)]
            }
        } else {
            if cur.1 < prev.1 {
                seq![(x, y - half), (x, y)]
            } else {
                seq![(x, y + half), (x, y)]
            }
        }
    }

    /// The points that the inner points before index `n` of a consolidated
    /// path add to its drawing.
    pub open spec fn joints(self, cpath: Seq<(u32, u32)>, n: int) -> Seq<(int, int)>
        decreases n,
    {
        if n <= 1 {
            Seq::empty()
        } else {
            self.joints(cpath, n - 1) + self.joint(cpath[n - 2], cpath[n - 1])
        }
    }

    /// The points between which a consolidated path is drawn; each pair of
    /// them, the first with the second, the third with the fourth and so
    /// on, is one line segment. A path of fewer than two points has no
    /// segment: its points are given as they are, as centres of cells.
    pub open spec fn segment_points(self, cpath: Seq<(u32, u32)>) -> Seq<(int, int)> {
        if cpath.len() < 2 {
            Seq::new(cpath.len(), |i: int| self.center_of(cpath[i]))
        } else {
            seq![self.center_of(cpath[0])] + self.joints(cpath, cpath.len() - 1) + seq![
                self.center_of(cpath.last()),
            ]
        }
    }

    /// The points of a drawing as whole numbers.
    pub open spec fn as_points(points: Seq<(u32, u32)>) -> Seq<(int, int)> {
        Seq::new(points.len(), |i: int| (points[i].0 as int, points[i].1 as int))
    }

    /// The points between which the consolidated path `cpath` is drawn, in
    /// pixels. A path line must be drawable through each cell of the path.
    pub fn cpath_to_segments(&self, cpath: Vec<(u32, u32)>) -> (segments: Vec<(u32, u32)>)
        requires
            forall|i: int| 0 <= i < cpath@.len() ==> self.can_draw_through(#[trigger] cpath@[i]),
        ensures
            Self::as_points(segments@) == self.segment_points(cpath@),
    {
        let mut segments: Vec<(u32, u32)> = Vec::new();
        if cpath.len() < 2 {
            let mut k: usize = 0;
            while k < cpath.len()
                invariant
                    k <= cpath@.len(),
                    segments@.len() == k,
                    forall|i: int|
                        0 <= i < cpath@.len() ==> self.can_draw_through(#[trigger] cpath@[i]),
                    forall|i: int|
                        0 <= i < k ==> (#[trigger] segments@[i]).0 == self.center_of(cpath@[i]).0
                            && segments@[i].1 == self.center_of(cpath@[i]).1,
                decreases cpath.len() - k,
            {
                assert(self.can_draw_through(cpath@[k as int]));
                segments.push(self.grid_to_screen_coord_center(cpath[k]));
                k = k + 1;
            }
            assert(Self::as_points(segments@) =~= self.segment_points(cpath@));
            return segments;
        }
        assert(self.can_draw_through(cpath@[0]));
        segments.push(self.grid_to_screen_coord_center(cpath[0]));
        assert(Self::as_points(segments@) =~= seq![self.center_of(cpath@[0])] + self.joints(
            cpath@,
            1,
        ));
        let mut i: usize = 1;
        while i < cpath.len() - 1
            invariant
                cpath@.len() >= 2,
                1 <= i <= cpath@.len() - 1,
                forall|j: int|
                    0 <= j < cpath@.len() ==> self.can_draw_through(#[trigger] cpath@[j]),
                Self::as_points(segments@) == seq![self.center_of(cpath@[0])] + self.joints(
                    cpath@,
                    i as int,
                ),
            decreases cpath.len() - i,
        {
            let prev = cpath[i - 1];
            let cur = cpath[i];
            assert(self.can_draw_through(cpath@[i as int]));
            let ghost before = segments@;
            let (x, y) = self.grid_to_screen_coord_center(cur);
            if cur.1 == prev.1 {
                if cur.0 < prev.0 {
                    segments.push((x - self.path_line_width / 2, y));
                } else {
                    segments.push((x + self.path_line_width / 2, y));
                }
                segments.push((x, y));
            } else {
                if cur.1 < prev.1 {
                    segments.push((x, y - self.path_line_width / 2));
                } else {
                    segments.push((x, y + self.path_line_width / 2));
                }
                segments.push((x, y));
            }
            proof {
                let added = self.joint(prev, cur);
                assert(Self::as_points(segments@) =~= Self::as_points(before) + added);
                assert(self.joints(cpath@, i as int + 1) == self.joints(cpath@, i as int) + added);
                assert(seq![self.center_of(cpath@[0])] + self.joints(cpath@, i as int) + added
                    =~= seq![self.center_of(cpath@[0])] + (self.joints(cpath@, i as int) + added));
            }
            i = i + 1;
        }
        assert(self.can_draw_through(cpath@[cpath@.len() - 1]));
        let ghost before = segments@;
        segments.push(self.grid_to_screen_coord_center(cpath[cpath.len() - 1]));
        assert(Self::as_points(segments@) =~= Self::as_points(before) + seq![
            self.center_of(cpath@.last()),
        ]);
        segments
    }

    /// The end points of grid line `i` among the lines that run from top
    /// to bottom: lines are counted from the left, the first being line 0.
    pub open spec fn upright_line(self, i: int) -> ((int, int), (int, int)) {
        let x = self.horizontal_padding + i * self.grid_cell_dim;
        ((x, self.vertical_padding as int), (x, self.window_height - self.vertical_padding))
    }

    /// The end points of grid line `i` among the lines that run from left
    /// to right: lines are counted from the top, the first being line 0.
    pub open spec fn level_line(self, i: int) -> ((int, int), (int, int)) {
        let y = self.vertical_padding + i * self.grid_cell_dim;
        ((self.horizontal_padding as int, y), (self.window_width - self.horizontal_padding, y))
    }

    /// Whether the end points of all grid lines have coordinates that can
    /// be computed: the padding fits the window, and the last line of either
    /// kind has coordinates that fit the window's number range. There is one
    /// more upright line than the grid has rows, and one more level line
    /// than it has columns.
    pub open spec fn lines_fit(self) -> bool {
        &&& self.vertical_padding <= self.window_height
        &&& self.horizontal_padding <= self.window_width
        &&& self.horizontal_padding + self.grid_n_cell_height * self.grid_cell_dim <= u32::MAX
        &&& self.vertical_padding + self.grid_n_cell_width * self.grid_cell_dim <= u32::MAX
        &&& self.grid_n_cell_height < u32::MAX
        &&& self.grid_n_cell_width < u32::MAX
    }

    /// The end points of the grid lines: those of the upright lines from
    /// left to right, then those of the level lines from top to bottom.
    pub open spec fn line_ends(self) -> Seq<((int, int), (int, int))> {
        Seq::new((self.grid_n_cell_height + 1) as nat, |i: int| self.upright_line(i)) + Seq::new(
            (self.grid_n_cell_width + 1) as nat,
            |i: int| self.level_line(i),
        )
    }

    /// The pairs of points of a drawing as whole numbers.
    pub open spec fn as_lines(lines: Seq<((u32, u32), (u32, u32))>) -> Seq<
        ((int, int), (int, int)),
    > {
        Seq::new(
            lines.len(),
            |i: int|
                (
                    (lines[i].0.0 as int, lines[i].0.1 as int),
                    (lines[i].1.0 as int, lines[i].1.1 as int),
                ),
        )
    }

    /// Whether the pair of points `l` is the pair `m` of whole numbers.
    pub open spec fn same_line(l: ((u32, u32), (u32, u32)), m: ((int, int), (int, int))) -> bool {
        l.0.0 == m.0.0 && l.0.1 == m.0.1 && l.1.0 == m.1.0 && l.1.1 == m.1.1
    }

    /// Whether the point `p` is the point `q` of whole numbers.
    pub open spec fn same_point(p: (u32, u32), q: (int, int)) -> bool {
        p.0 == q.0 && p.1 == q.1
    }

    /// The end points of the grid lines, if they can be computed.
    pub fn grid_lines(&self) -> (lines: Option<Vec<((u32, u32), (u32, u32))>>)
        ensures
            lines is Some <==> self.lines_fit(),
            lines matches Some(ends) ==> Self::as_lines(ends@) == self.line_ends(),
    {
        if self.vertical_padding > self.window_height || self.horizontal_padding
            > self.window_width || self.grid_n_cell_height == u32::MAX || self.grid_n_cell_width
            == u32::MAX {
            return None;
        }
        let cell = self.grid_cell_dim as u64;
        assert(self.grid_n_cell_height * self.grid_cell_dim <= 0xffff_ffff * 0xffff_ffff)
            by (nonlinear_arith)
            requires
                0 <= self.grid_n_cell_height <= 0xffff_ffff,
                0 <= self.grid_cell_dim <= 0xffff_ffff,
        ;
        assert(self.grid_n_cell_width * self.grid_cell_dim <= 0xffff_ffff * 0xffff_ffff)
            by (nonlinear_arith)
            requires
                0 <= self.grid_n_cell_width <= 0xffff_ffff,
                0 <= self.grid_cell_dim <= 0xffff_ffff,
        ;
        if self.horizontal_padding as u128 + self.grid_n_cell_height as u128 * (cell as u128)
            > u32::MAX as u128 || self.vertical_padding as u128 + self.grid_n_cell_width as u128 * (
        cell as u128) > u32::MAX as u128 {
            return None;
        }
        let bottom = self.window_height - self.vertical_padding;
        let right = self.window_width - self.horizontal_padding;
        let mut ends: Vec<((u32, u32), (u32, u32))> = Vec::new();
        let mut i: u32 = 0;
        while i < self.grid_n_cell_height + 1
            invariant
                self.lines_fit(),
                bottom == self.window_height - self.vertical_padding,
                i <= self.grid_n_cell_height + 1,
                ends@.len() == i,
                forall|j: int|
                    0 <= j < i ==> Self::same_line(#[trigger] ends@[j], self.upright_line(j)),
            decreases self.grid_n_cell_height + 1 - i,
        {
            assert(0 <= i * self.grid_cell_dim <= self.grid_n_cell_height * self.grid_cell_dim)
                by (nonlinear_arith)
                requires
                    0 <= i <= self.grid_n_cell_height,
                    0 <= self.grid_cell_dim,
            ;
            let x = self.horizontal_padding + i * self.grid_cell_dim;
            ends.push(((x, self.vertical_padding), (x, bottom)));
            i = i + 1;
        }
        let ghost uprights = ends@;
        let mut i: u32 = 0;
        while i < self.grid_n_cell_width + 1
            invariant
                self.lines_fit(),
                right == self.window_width - self.horizontal_padding,
                i <= self.grid_n_cell_width + 1,
                uprights.len() == self.grid_n_cell_height + 1,
                ends@.len() == uprights.len() + i,
                forall|j: int|
                    0 <= j < uprights.len() ==> Self::same_line(
                        #[trigger] ends@[j],
                        self.upright_line(j),
                    ),
                forall|j: int|
                    uprights.len() <= j < ends@.len() ==> Self::same_line(
                        #[trigger] ends@[j],
                        self.level_line(j - uprights.len()),
                    ),
            decreases self.grid_n_cell_width + 1 - i,
        {
            assert(0 <= i * self.grid_cell_dim <= self.grid_n_cell_width * self.grid_cell_dim)
                by (nonlinear_arith)
                requires
                    0 <= i <= self.grid_n_cell_width,
                    0 <= self.grid_cell_dim,
            ;
            let y = self.vertical_padding + i * self.grid_cell_dim;
            ends.push(((self.horizontal_padding, y), (right, y)));
            i = i + 1;
        }
        assert forall|j: int| 0 <= j < ends@.len() implies Self::as_lines(ends@)[j]
            == self.line_ends()[j] by {
            if j < uprights.len() {
                assert(Self::same_line(ends@[j], self.upright_line(j)));
            } else {
                assert(Self::same_line(ends@[j], self.level_line(j - uprights.len())));
            }
        }
        assert(Self::as_lines(ends@) =~= self.line_ends());
        Some(ends)
    }

    /// Where the number of column `x` is written: above the grid, about the
    /// middle of the column.
    pub open spec fn column_label(self, x: int) -> (int, int) {
        (
            self.horizontal_padding + self.grid_cell_dim / 2 - 3 + x * self.grid_cell_dim,
            self.vertical_padding - 20,
        )
    }

    /// Where the number of row `y` is written: to the left of the grid, about
    /// the middle of the row.
    pub open spec fn row_label(self, y: int) -> (int, int) {
        (
            self.horizontal_padding - 20,
            self.vertical_padding + self.grid_cell_dim / 2 - 2 + y * self.grid_cell_dim,
        )
    }

    /// Whether the places of the labels of the first `n` columns and rows
    /// can be computed: the padding leaves room for them, and the places of
    /// the last labels have coordinates that fit the window's number range.
    pub open spec fn labels_fit(self, n: u32) -> bool {
        &&& self.vertical_padding >= 20
        &&& self.horizontal_padding >= 20
        &&& self.horizontal_padding + self.grid_cell_dim / 2 >= 3
        &&& self.vertical_padding + self.grid_cell_dim / 2 >= 2
        &&& n > 0 ==> self.column_label(n - 1).0 <= u32::MAX && self.row_label(n - 1).1
            <= u32::MAX
        &&& self.horizontal_padding + self.grid_cell_dim / 2 <= u32::MAX
        &&& self.vertical_padding + self.grid_cell_dim / 2 <= u32::MAX
    }

    /// The places of the labels of the first `n` columns, followed by those
    /// of the first `n` rows.
    pub open spec fn label_places(self, n: u32) -> Seq<(int, int)> {
        Seq::new(n as nat, |x: int| self.column_label(x)) + Seq::new(
            n as nat,
            |y: int| self.row_label(y),
        )
    }

    /// The places of the labels of the first `n` columns, followed by those
    /// of the first `n` rows, if they can be computed.
    pub fn label_positions(&self, n: u32) -> (places: Option<Vec<(u32, u32)>>)
        ensures
            places is Some <==> self.labels_fit(n),
            places matches Some(at) ==> Self::as_points(at@) == self.label_places(n),
    {
        let half = self.grid_cell_dim / 2;
        if self.vertical_padding < 20 || self.horizontal_padding < 20 {
            return None;
        }
        if self.horizontal_padding as u64 + half as u64 > u32::MAX as u64
            || self.vertical_padding as u64 + half as u64 > u32::MAX as u64 {
            return None;
        }
        if self.horizontal_padding + half < 3 || self.vertical_padding + half < 2 {
            return None;
        }
        let first_x = self.horizontal_padding + half - 3;
        let first_y = self.vertical_padding + half - 2;
        if n > 0 {
            assert((n - 1) * self.grid_cell_dim <= 0xffff_ffff * 0xffff_ffff) by (nonlinear_arith)
                requires
                    0 <= n - 1 <= 0xffff_ffff,
                    0 <= self.grid_cell_dim <= 0xffff_ffff,
            ;
            let reach = (n - 1) as u128 * (self.grid_cell_dim as u128);
            if first_x as u128 + reach > u32::MAX as u128 || first_y as u128 + reach
                > u32::MAX as u128 {
                return None;
            }
        }
        let mut at: Vec<(u32, u32)> = Vec::new();
        let mut x: u32 = 0;
        while x < n
            invariant
                self.labels_fit(n),
                first_x == self.horizontal_padding + self.grid_cell_dim / 2 - 3,
                x <= n,
                at@.len() == x,
                forall|j: int|
                    0 <= j < x ==> Self::same_point(#[trigger] at@[j], self.column_label(j)),
            decreases n - x,
        {
            assert(0 <= x * self.grid_cell_dim <= (n - 1) * self.grid_cell_dim) by (nonlinear_arith)
                requires
                    0 <= x <= n - 1,
                    0 <= self.grid_cell_dim,
            ;
            at.push((first_x + x * self.grid_cell_dim, self.vertical_padding - 20));
            x = x + 1;
        }
        let mut y: u32 = 0;
        while y < n
            invariant
                self.labels_fit(n),
                first_y == self.vertical_padding + self.grid_cell_dim / 2 - 2,
                y <= n,
                at@.len() == n + y,
                forall|j: int|
                    0 <= j < n ==> Self::same_point(#[trigger] at@[j], self.column_label(j)),
                forall|j: int|
                    n <= j < at@.len() ==> Self::same_point(
                        #[trigger] at@[j],
                        self.row_label(j - n),
                    ),
            decreases n - y,
        {
            assert(0 <= y * self.grid_cell_dim <= (n - 1) * self.grid_cell_dim) by (nonlinear_arith)
                requires
                    0 <= y <= n - 1,
                    0 <= self.grid_cell_dim,
            ;
            at.push((self.horizontal_padding - 20, first_y + y * self.grid_cell_dim));
            y = y + 1;
        }
        assert forall|j: int| 0 <= j < at@.len() implies Self::as_points(at@)[j]
            == self.label_places(n)[j] by {
            if j < n {
                assert(Self::same_point(at@[j], self.column_label(j)));
            } else {
                assert(Self::same_point(at@[j], self.row_label(j - n)));
            }
        }
        assert(Self::as_points(at@) =~= self.label_places(n));
        Some(at)
    }
}

} // verus!
