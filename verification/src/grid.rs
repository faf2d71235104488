use vstd::prelude::*;

use crate::parse;
use crate::position::Position;

verus! {

/// A dense 2D table indexed by [`Position`], stored row by row.
///
/// `width` is the length of the first row and `height` the number of rows.
/// Rows of another length than `width` are the caller's responsibility:
/// every operation here goes by the actual row lengths, so access to a cell
/// outside the stored data is answered with `None` or `false`, never a fault.
pub struct Grid<T> {
    pub width: usize,
    pub height: usize,
    data: Vec<Vec<T>>,
}

impl<T> View for Grid<T> {
    type V = Seq<Seq<T>>;

    closed spec fn view(&self) -> Seq<Seq<T>> {
        self.data@.map_values(|row: Vec<T>| row@)
    }
}

/// The cell at `pos`, if `pos` addresses a stored cell of `g`.
pub open spec fn cell_at<T>(g: Seq<Seq<T>>, pos: Position) -> Option<T> {
    if pos.row < g.len() && pos.col < g[pos.row as int].len() {
        Some(g[pos.row as int][pos.col as int])
    } else {
        None
    }
}

/// The `(position, value)` pairs of the rows before row `r`, in row-major
/// order: all columns of row 0 left to right, then row 1, and so on.
pub open spec fn cells_upto<T>(g: Seq<Seq<T>>, r: int) -> Seq<(Position, T)>
    decreases r,
{
    if r <= 0 || r > g.len() {
        Seq::empty()
    } else {
        cells_upto(g, r - 1) + row_cells(g[r - 1], r - 1)
    }
}

/// The `(position, value)` pairs of one row `row` standing at row index `r`.
pub open spec fn row_cells<T>(row: Seq<T>, r: int) -> Seq<(Position, T)> {
    Seq::new(row.len(), |j: int| (Position { row: r as usize, col: j as usize }, row[j]))
}

impl<T> Grid<T> {
    /// The declared width: the length of the first row at construction.
    pub closed spec fn spec_width(&self) -> usize {
        self.width
    }

    /// The declared height: the number of rows at construction.
    pub closed spec fn spec_height(&self) -> usize {
        self.height
    }

    /// The declared width: the length of the first row at construction.
    pub fn width(&self) -> (r: usize)
        ensures
            r == self.spec_width(),
    {
        self.width
    }

    /// The declared height: the number of rows at construction.
    pub fn height(&self) -> (r: usize)
        ensures
            r == self.spec_height(),
    {
        self.height
    }

    /// The stored length of row `r`.
    pub fn row_len(&self, r: usize) -> (n: usize)
        requires
            r < self@.len(),
        ensures
            n == self@[r as int].len(),
    {
        self.data[r].len()
    }

    /// Builds a grid owning the given rows. The outer vector must not be
    /// empty; `width` is taken from the first row.
    pub fn new(vec2d: Vec<Vec<T>>) -> (r: Self)
        requires
            vec2d@.len() >= 1,
        ensures
            r@.len() == vec2d@.len(),
            forall|i: int| 0 <= i < vec2d@.len() ==> r@[i] == vec2d@[i]@,
            r.spec_height() == vec2d@.len(),
            r.spec_width() == vec2d@[0]@.len(),
    {
        let width = vec2d[0].len();
        let height = vec2d.len();
        let r = Self { width, height, data: vec2d };
        proof {
            assert(forall|i: int| 0 <= i < r.data@.len() ==> r@[i] == r.data@[i]@);
        }
        r
    }

    /// The stored cell at `pos`, or `None` when `pos` lies outside the data.
    pub fn get(&self, pos: &Position) -> (r: Option<&T>)
        ensures
            match r {
                Some(v) => cell_at(self@, *pos) == Some(*v),
                None => cell_at(self@, *pos) is None,
            },
    {
        if pos.row < self.data.len() && pos.col < self.data[pos.row].len() {
            Some(&self.data[pos.row][pos.col])
        } else {
            None
        }
    }

    /// Exclusive access to the stored cell at `pos`, or `None` when `pos`
    /// lies outside the data; the grid afterwards holds whatever the caller
    /// wrote through the reference.
    pub fn get_mut(&mut self, pos: &Position) -> (r: Option<&mut T>)
        ensures
            match r {
                Some(v) => cell_at(old(self)@, *pos) == Some(*v) && final(self)@ == old(
                    self,
                )@.update(
                    pos.row as int,
                    old(self)@[pos.row as int].update(pos.col as int, *final(v)),
                ),
                None => cell_at(old(self)@, *pos) is None && final(self)@ == old(self)@,
            },
            final(self).spec_width() == old(self).spec_width(),
            final(self).spec_height() == old(self).spec_height(),
    {
        if pos.row < self.data.len() && pos.col < self.data[pos.row].len() {
            proof {
                lemma_view_update::<T>(self.data@, pos.row as int, pos.col as int);
            }
            let v = &mut self.data[pos.row][pos.col];
            Some(v)
        } else {
            None
        }
    }

    /// Overwrites the cell at `pos` and reports whether `pos` was in bounds;
    /// an out-of-bounds `pos` leaves the grid unchanged.
    pub fn put(&mut self, pos: &Position, to_put: T) -> (r: bool)
        ensures
            r == (pos.row < old(self)@.len() && pos.col < old(self)@[pos.row as int].len()),
            r ==> final(self)@ == old(self)@.update(
                pos.row as int,
                old(self)@[pos.row as int].update(pos.col as int, to_put),
            ),
            !r ==> final(self)@ == old(self)@,
            final(self).spec_width() == old(self).spec_width(),
            final(self).spec_height() == old(self).spec_height(),
    {
        if pos.row < self.data.len() && pos.col < self.data[pos.row].len() {
            self.data[pos.row][pos.col] = to_put;
            proof {
                assert(self@ =~= old(self)@.update(
                    pos.row as int,
                    old(self)@[pos.row as int].update(pos.col as int, to_put),
                ));
            }
            true
        } else {
            false
        }
    }

    /// After a successful `put`, `get` at the same position answers the new
    /// value, and every other stored cell is unchanged.
    pub proof fn lemma_put_get(pre: Seq<Seq<T>>, pos: Position, v: T)
        requires
            pos.row < pre.len(),
            pos.col < pre[pos.row as int].len(),
        ensures
            cell_at(pre.update(pos.row as int, pre[pos.row as int].update(pos.col as int, v)), pos)
                == Some(v),
            forall|q: Position| q != pos ==> cell_at(
                pre.update(pos.row as int, pre[pos.row as int].update(pos.col as int, v)),
                q,
            ) == cell_at(pre, q),
    {
    }
}

/// Updating one stored cell updates the grid's view at that cell alone.
proof fn lemma_view_update<T>(rows: Seq<Vec<T>>, r: int, c: int)
    requires
        0 <= r < rows.len(),
    ensures
        forall|row2: Vec<T>|
            rows.update(r, row2).map_values(|row: Vec<T>| row@) =~= rows.map_values(
                |row: Vec<T>| row@,
            ).update(r, row2@),
{
}

impl<T: Copy> Grid<T> {
    /// All `(position, value)` pairs of the grid in row-major order. Every
    /// pair names a stored cell and its value.
    pub fn iter(&self) -> (r: Vec<(Position, T)>)
        ensures
            r@ == cells_upto(self@, self@.len() as int),
            forall|k: int|
                0 <= k < r@.len() ==> cell_at(self@, (#[trigger] r@[k]).0) == Some(r@[k].1),
    {
        let ghost g = self@;
        let mut r: Vec<(Position, T)> = Vec::new();
        let mut i: usize = 0;
        while i < self.data.len()
            invariant
                0 <= i <= g.len(),
                g == self@,
                g.len() == self.data@.len(),
                forall|k: int| 0 <= k < g.len() ==> g[k] == self.data@[k]@,
                r@ == cells_upto(g, i as int),
                forall|k: int|
                    0 <= k < r@.len() ==> cell_at(g, (#[trigger] r@[k]).0) == Some(r@[k].1),
            decreases g.len() - i,
        {
            let mut j: usize = 0;
            while j < self.data[i].len()
                invariant
                    0 <= i < g.len(),
                    0 <= j <= g[i as int].len(),
                    g == self@,
                    g.len() == self.data@.len(),
                    forall|k: int| 0 <= k < g.len() ==> g[k] == self.data@[k]@,
                    r@ == cells_upto(g, i as int) + row_cells(g[i as int], i as int).take(j as int),
                    forall|k: int|
                        0 <= k < r@.len() ==> cell_at(g, (#[trigger] r@[k]).0) == Some(r@[k].1),
                decreases g[i as int].len() - j,
            {
                r.push((Position::new(i, j), self.data[i][j]));
                proof {
                    assert(row_cells(g[i as int], i as int).take(j + 1) =~= row_cells(
                        g[i as int],
                        i as int,
                    ).take(j as int).push((Position { row: i, col: j }, g[i as int][j as int])));
                }
                j += 1;
            }
            proof {
                assert(row_cells(g[i as int], i as int).take(g[i as int].len() as int) =~= row_cells(
                    g[i as int],
                    i as int,
                ));
            }
            i += 1;
        }
        r
    }
}


impl Grid<u8> {
    /// Builds a grid of bytes from a block of text, one row per line, one
    /// cell per byte. `None` exactly when the text has no lines.
    pub fn from_text(input: &[u8]) -> (r: Option<Grid<u8>>)
        ensures
            ({
                let lns = parse::spec_lines(input@);
                match r {
                    Some(g) => lns.len() > 0 && g@ == lns && g.spec_height() == lns.len()
                        && g.spec_width() == lns[0].len(),
                    None => lns.len() == 0,
                }
            }),
    {
        let lines = parse::split_lines(input);
        if lines.len() == 0 {
            return None;
        }
        let ghost lns = parse::spec_lines(input@);
        let ghost lv = lines@;
        let g = Grid::new(lines);
        proof {
            assert(g@ =~= lns) by {
                assert forall|i: int| 0 <= i < lns.len() implies g@[i] == lns[i] by {
                    assert(g@[i] == lv[i]@);
                    assert(lv.map_values(|l: Vec<u8>| l@)[i] == lns[i]);
                }
            }
        }
        Some(g)
    }
}

} // verus!
