use vstd::prelude::*;

use crate::parse;

verus! {

/// The model of a dug terrain: one optional depth per cell.
pub type Terrain = Seq<Seq<Option<usize>>>;

/// Every row of `m` has the length of the first, and there is a first.
pub open spec fn rect(m: Terrain) -> bool {
    m.len() > 0 && forall|i: int| 0 <= i < m.len() ==> (#[trigger] m[i]).len() == m[0].len()
}

/// The cell at `(r, c)` exists, holds a depth, and that depth is at least `v`.
pub open spec fn cell_ge(m: Terrain, r: int, c: int, v: nat) -> bool {
    0 <= r < m.len() && 0 <= c < m[r].len() && m[r][c] is Some && m[r][c].unwrap() >= v
}

/// The cell at `(r, c)` holds a depth and every required neighbor does too,
/// each at least as deep: the four cross neighbors, and with `diag` also the
/// four diagonal ones. Such a cell is ready to be dug one deeper.
pub open spec fn diggable(m: Terrain, r: int, c: int, diag: bool) -> bool {
    &&& 0 <= r < m.len()
    &&& 0 <= c < m[r].len()
    &&& m[r][c] is Some
    &&& {
        let v = m[r][c].unwrap() as nat;
        &&& cell_ge(m, r - 1, c, v)
        &&& cell_ge(m, r + 1, c, v)
        &&& cell_ge(m, r, c - 1, v)
        &&& cell_ge(m, r, c + 1, v)
        &&& (diag ==> cell_ge(m, r - 1, c - 1, v) && cell_ge(m, r - 1, c + 1, v) && cell_ge(
            m,
            r + 1,
            c - 1,
            v,
        ) && cell_ge(m, r + 1, c + 1, v))
    }
}

/// The terrain after digging the cell at `(r, c)` one deeper.
pub open spec fn dig(m: Terrain, r: int, c: int) -> Terrain {
    m.update(r, m[r].update(c, Some((m[r][c].unwrap() + 1) as usize)))
}

/// No cell of `m` is ready to be dug.
pub open spec fn is_fixed(m: Terrain, diag: bool) -> bool {
    forall|r: int, c: int| !diggable(m, r, c, diag)
}

/// Step `i` of the run `tr` digs one diggable cell.
pub open spec fn trace_step(tr: Seq<Terrain>, i: int, diag: bool) -> bool {
    exists|r: int, c: int|
        #![trigger diggable(tr[i], r, c, diag)]
        diggable(tr[i], r, c, diag) && tr[i + 1] == dig(tr[i], r, c)
}

/// `tr` is a run of single digs under the `diag` rule, starting at `tr[0]`.
pub open spec fn legal_trace(tr: Seq<Terrain>, diag: bool) -> bool {
    tr.len() >= 1 && forall|i: int| 0 <= i < tr.len() - 1 ==> #[trigger] trace_step(tr, i, diag)
}

/// A depth of 2 or more is vouched for by all four cross neighbors, one less
/// deep at the least. This holds of every terrain a legal run reaches.
pub open spec fn depth_inv(m: Terrain) -> bool {
    forall|r: int, c: int|
        #![trigger m[r][c]]
        0 <= r < m.len() && 0 <= c < m[r].len() && m[r][c] is Some && m[r][c].unwrap() >= 2 ==> {
            let v1 = (m[r][c].unwrap() - 1) as nat;
            cell_ge(m, r - 1, c, v1) && cell_ge(m, r + 1, c, v1) && cell_ge(m, r, c - 1, v1)
                && cell_ge(m, r, c + 1, v1)
        }
}

/// Under the depth invariant, a cell's depth is at most its row index plus 1.
pub proof fn lemma_depth_bound(m: Terrain, r: int, c: int)
    requires
        depth_inv(m),
        0 <= r < m.len(),
        0 <= c < m[r].len(),
        m[r][c] is Some,
    ensures
        m[r][c].unwrap() <= r + 1,
    decreases r,
{
    if m[r][c].unwrap() >= 2 {
        assert(cell_ge(m, r - 1, c, (m[r][c].unwrap() - 1) as nat));
        lemma_depth_bound(m, r - 1, c);
    }
}

/// A cell that vouches for a depth keeps vouching after any single dig of a
/// cell whose depth still fits.
proof fn lemma_dig_cell_ge(m: Terrain, r: int, c: int, x: int, y: int, v: nat)
    requires
        0 <= r < m.len(),
        0 <= c < m[r].len(),
        m[r][c] is Some,
        m[r][c].unwrap() < usize::MAX,
        cell_ge(m, x, y, v),
    ensures
        cell_ge(dig(m, r, c), x, y, v),
{
    let m2 = dig(m, r, c);
    assert(m2.len() == m.len());
    assert(m2[x].len() == m[x].len());
    if x == r && y == c {
        assert(m2[x][y] == Some((m[r][c].unwrap() + 1) as usize));
    } else {
        assert(m2[x][y] == m[x][y]);
    }
}

/// Digging a diggable cell keeps the depth invariant and the shape.
#[verifier::rlimit(60)]
pub proof fn lemma_dig_keeps_inv(m: Terrain, r: int, c: int, diag: bool)
    requires
        rect(m),
        depth_inv(m),
        diggable(m, r, c, diag),
        m.len() <= usize::MAX,
    ensures
        depth_inv(dig(m, r, c)),
        rect(dig(m, r, c)),
        dig(m, r, c).len() == m.len(),
        dig(m, r, c)[0].len() == m[0].len(),
{
    let m2 = dig(m, r, c);
    let v = m[r][c].unwrap() as nat;
    lemma_depth_bound(m, r, c);
    assert(cell_ge(m, r + 1, c, v));
    assert(v < usize::MAX);
    assert(m2[r].len() == m[r].len());
    assert forall|i: int| 0 <= i < m2.len() implies (#[trigger] m2[i]).len() == m2[0].len() by {
        assert(m[i].len() == m[0].len());
    }
    assert forall|r2: int, c2: int|
        #![trigger m2[r2][c2]]
        0 <= r2 < m2.len() && 0 <= c2 < m2[r2].len() && m2[r2][c2] is Some && m2[r2][c2].unwrap()
            >= 2 implies {
        let v1 = (m2[r2][c2].unwrap() - 1) as nat;
        cell_ge(m2, r2 - 1, c2, v1) && cell_ge(m2, r2 + 1, c2, v1) && cell_ge(m2, r2, c2 - 1, v1)
            && cell_ge(m2, r2, c2 + 1, v1)
    } by {
        if r2 == r && c2 == c {
            assert(m2[r2][c2] == Some((v + 1) as usize));
            let v1 = (m2[r2][c2].unwrap() - 1) as nat;
            assert(v1 == v);
            lemma_dig_cell_ge(m, r, c, r - 1, c, v);
            lemma_dig_cell_ge(m, r, c, r + 1, c, v);
            lemma_dig_cell_ge(m, r, c, r, c - 1, v);
            lemma_dig_cell_ge(m, r, c, r, c + 1, v);
        } else {
            assert(m2[r2][c2] == m[r2][c2]);
            let v1 = (m2[r2][c2].unwrap() - 1) as nat;
            assert(cell_ge(m, r2 - 1, c2, v1) && cell_ge(m, r2 + 1, c2, v1) && cell_ge(
                m,
                r2,
                c2 - 1,
                v1,
            ) && cell_ge(m, r2, c2 + 1, v1));
            lemma_dig_cell_ge(m, r, c, r2 - 1, c2, v1);
            lemma_dig_cell_ge(m, r, c, r2 + 1, c2, v1);
            lemma_dig_cell_ge(m, r, c, r2, c2 - 1, v1);
            lemma_dig_cell_ge(m, r, c, r2, c2 + 1, v1);
        }
    }
}

/// The summed depth of one row.
pub open spec fn row_sum(row: Seq<Option<usize>>) -> nat
    decreases row.len(),
{
    if row.len() == 0 {
        0
    } else {
        row_sum(row.drop_last()) + (match row.last() {
            Some(v) => v as nat,
            None => 0,
        })
    }
}

/// The summed depth of the whole terrain.
pub open spec fn terrain_sum(m: Terrain) -> nat
    decreases m.len(),
{
    if m.len() == 0 {
        0
    } else {
        terrain_sum(m.drop_last()) + row_sum(m.last())
    }
}

/// An upper bound on a row's possible summed depth: each cell of row `r` can
/// reach depth `r + 1` at the most.
pub open spec fn row_cap(len: nat, r: int) -> nat {
    (len * (r + 1)) as nat
}

/// An upper bound on the terrain's possible summed depth.
pub open spec fn terrain_cap(m: Terrain) -> nat
    decreases m.len(),
{
    if m.len() == 0 {
        0
    } else {
        terrain_cap(m.drop_last()) + row_cap(m.last().len(), m.len() - 1)
    }
}

proof fn lemma_row_sum_cap(row: Seq<Option<usize>>, b: nat)
    requires
        forall|c: int| 0 <= c < row.len() ==> (match #[trigger] row[c] {
            Some(v) => v as nat <= b,
            None => true,
        }),
    ensures
        row_sum(row) <= row.len() * b,
    decreases row.len(),
{
    if row.len() > 0 {
        lemma_row_sum_cap(row.drop_last(), b);
        assert(row.drop_last().len() * b + b == row.len() * b) by (nonlinear_arith)
            requires row.len() >= 1, row.drop_last().len() == row.len() - 1;
    }
}

proof fn lemma_sum_le_cap_upto(m: Terrain, k: int)
    requires
        depth_inv(m),
        0 <= k <= m.len(),
    ensures
        terrain_sum(m.take(k)) <= terrain_cap(m.take(k)),
    decreases k,
{
    if k > 0 {
        lemma_sum_le_cap_upto(m, k - 1);
        assert(m.take(k).drop_last() =~= m.take(k - 1));
        assert(m.take(k).last() == m[k - 1]);
        assert forall|c: int| 0 <= c < m[k - 1].len() implies (match #[trigger] m[k - 1][c] {
            Some(v) => v as nat <= k,
            None => true,
        }) by {
            if m[k - 1][c] is Some {
                lemma_depth_bound(m, k - 1, c);
            }
        }
        lemma_row_sum_cap(m[k - 1], k as nat);
    }
}

/// Under the depth invariant the summed depth never passes the cap.
pub proof fn lemma_sum_le_cap(m: Terrain)
    requires
        depth_inv(m),
    ensures
        terrain_sum(m) <= terrain_cap(m),
{
    lemma_sum_le_cap_upto(m, m.len() as int);
    assert(m.take(m.len() as int) =~= m);
}


proof fn lemma_row_update_sum(row: Seq<Option<usize>>, c: int, x: Option<usize>)
    requires
        0 <= c < row.len(),
    ensures
        row_sum(row.update(c, x)) == row_sum(row) - (match row[c] {
            Some(v) => v as nat,
            None => 0,
        }) + (match x {
            Some(v) => v as nat,
            None => 0,
        }),
    decreases row.len(),
{
    let r2 = row.update(c, x);
    if c == row.len() - 1 {
        assert(r2.drop_last() =~= row.drop_last());
    } else {
        assert(r2.drop_last() =~= row.drop_last().update(c, x));
        lemma_row_update_sum(row.drop_last(), c, x);
        assert(r2.last() == row.last());
    }
}

proof fn lemma_terrain_update_sum(m: Terrain, r: int, row: Seq<Option<usize>>)
    requires
        0 <= r < m.len(),
    ensures
        terrain_sum(m.update(r, row)) == terrain_sum(m) - row_sum(m[r]) + row_sum(row),
    decreases m.len(),
{
    let m2 = m.update(r, row);
    if r == m.len() - 1 {
        assert(m2.drop_last() =~= m.drop_last());
    } else {
        assert(m2.drop_last() =~= m.drop_last().update(r, row));
        lemma_terrain_update_sum(m.drop_last(), r, row);
        assert(m2.last() == m.last());
    }
}

/// A single dig deepens the summed depth by exactly one.
pub proof fn lemma_dig_sum(m: Terrain, r: int, c: int)
    requires
        0 <= r < m.len(),
        0 <= c < m[r].len(),
        m[r][c] is Some,
        m[r][c].unwrap() < usize::MAX,
    ensures
        terrain_sum(dig(m, r, c)) == terrain_sum(m) + 1,
{
    let v = m[r][c].unwrap();
    lemma_row_update_sum(m[r], c, Some((v + 1) as usize));
    lemma_terrain_update_sum(m, r, m[r].update(c, Some((v + 1) as usize)));
}

/// The cap depends on the shape alone.
pub proof fn lemma_cap_congruent(m1: Terrain, m2: Terrain)
    requires
        m1.len() == m2.len(),
        forall|i: int| 0 <= i < m1.len() ==> (#[trigger] m1[i]).len() == m2[i].len(),
    ensures
        terrain_cap(m1) == terrain_cap(m2),
    decreases m1.len(),
{
    if m1.len() > 0 {
        lemma_cap_congruent(m1.drop_last(), m2.drop_last());
        assert(m1.last().len() == m2[m1.len() - 1].len());
    }
}

/// A line of terrain holds only soil (`.`) and nails (`#`).
pub open spec fn line_ok(l: Seq<u8>) -> bool {
    forall|j: int| 0 <= j < l.len() ==> l[j] == 46 || (#[trigger] l[j]) == 35
}

/// The lines describe a well-formed terrain: at least one line, all the same
/// length, made of soil and nails only.
pub open spec fn terrain_lines_ok(lines: Seq<Seq<u8>>) -> bool {
    &&& lines.len() > 0
    &&& forall|i: int| 0 <= i < lines.len() ==> (#[trigger] lines[i]).len() == lines[0].len()
    &&& forall|i: int| 0 <= i < lines.len() ==> line_ok(#[trigger] lines[i])
}

/// One parsed terrain line: a nail starts at depth 1, soil has none.
pub open spec fn parse_terrain_line(l: Seq<u8>) -> Seq<Option<usize>> {
    Seq::new(l.len(), |j: int| if l[j] == 35 { Some(1usize) } else { None })
}

/// The parsed terrain of well-formed lines.
pub open spec fn parse_terrain(lines: Seq<Seq<u8>>) -> Terrain {
    Seq::new(lines.len(), |i: int| parse_terrain_line(lines[i]))
}

/// A freshly parsed terrain is rectangular and holds no depth above 1, so the
/// depth invariant holds of it trivially.
pub proof fn lemma_parse_terrain_inv(lines: Seq<Seq<u8>>)
    requires
        terrain_lines_ok(lines),
    ensures
        rect(parse_terrain(lines)),
        depth_inv(parse_terrain(lines)),
{
}


/// A dug terrain owning its cells, the executable face of [`Terrain`].
pub struct TerrainMap {
    rows: Vec<Vec<Option<usize>>>,
}

impl View for TerrainMap {
    type V = Terrain;

    closed spec fn view(&self) -> Terrain {
        self.rows@.map_values(|row: Vec<Option<usize>>| row@)
    }
}

impl TerrainMap {
    /// Parses a terrain: one line per row, `#` a nail of depth 1, `.` bare
    /// soil. `None` exactly when there is no line, a line differs in length,
    /// or another character appears.
    pub fn new(input: &[u8]) -> (r: Option<TerrainMap>)
        ensures
            match r {
                Some(m) => terrain_lines_ok(parse::spec_lines(input@)) && m@ == parse_terrain(
                    parse::spec_lines(input@),
                ),
                None => !terrain_lines_ok(parse::spec_lines(input@)),
            },
    {
        let ghost lns = parse::spec_lines(input@);
        let lines = parse::split_lines(input);
        if lines.len() == 0 {
            proof {
                assert(lns.len() == 0);
            }
            return None;
        }
        let width = lines[0].len();
        let mut rows: Vec<Vec<Option<usize>>> = Vec::new();
        let mut i: usize = 0;
        while i < lines.len()
            invariant
                0 <= i <= lines@.len(),
                lns == parse::spec_lines(input@),
                lines@.map_values(|l: Vec<u8>| l@) == lns,
                lns.len() > 0,
                width == lns[0].len(),
                rows@.len() == i,
                forall|k: int| 0 <= k < i ==> (#[trigger] lns[k]).len() == lns[0].len(),
                forall|k: int| 0 <= k < i ==> line_ok(#[trigger] lns[k]),
                forall|k: int| 0 <= k < i ==> (#[trigger] rows@[k])@ == parse_terrain_line(lns[k]),
            decreases lines@.len() - i,
        {
            proof {
                assert(lines@.map_values(|l: Vec<u8>| l@)[i as int] == lns[i as int]);
            }
            let line = &lines[i];
            if line.len() != width {
                proof {
                    assert(lns[i as int].len() != lns[0].len());
                }
                return None;
            }
            let mut row: Vec<Option<usize>> = Vec::new();
            let mut j: usize = 0;
            while j < line.len()
                invariant
                    0 <= j <= line@.len(),
                    lns == parse::spec_lines(input@),
                    line@ == lns[i as int],
                    0 <= i < lns.len(),
                    row@.len() == j,
                    forall|t: int|
                        0 <= t < j ==> (#[trigger] lns[i as int][t]) == 46 || lns[i as int][t]
                            == 35,
                    forall|t: int| 0 <= t < j ==> row@[t] == parse_terrain_line(lns[i as int])[t],
                decreases line@.len() - j,
            {
                let b = line[j];
                if b == 35 {
                    row.push(Some(1));
                } else if b == 46 {
                    row.push(None);
                } else {
                    proof {
                        assert(lns[i as int][j as int] != 46 && lns[i as int][j as int] != 35);
                        assert(!line_ok(lns[i as int]));
                    }
                    return None;
                }
                j += 1;
            }
            rows.push(row);
            i += 1;
        }
        let m = TerrainMap { rows };
        proof {
            assert(terrain_lines_ok(lns));
            assert(m@ =~= parse_terrain(lns)) by {
                assert forall|k: int| 0 <= k < lns.len() implies m@[k] =~= parse_terrain(lns)[k] by {
                    assert(m@[k] == rows@[k]@);
                }
            }
        }
        Some(m)
    }

    /// The depth at `(r, c)`: `None` outside the map and on bare soil alike.
    pub fn at(&self, r: usize, c: usize) -> (res: Option<usize>)
        ensures
            res == if 0 <= r < self@.len() && 0 <= c < self@[r as int].len() {
                self@[r as int][c as int]
            } else {
                None
            },
    {
        if r < self.rows.len() && c < self.rows[r].len() {
            self.rows[r][c]
        } else {
            None
        }
    }

    /// Whether the cell at `(r, c)` may be dug one deeper under the chosen
    /// neighbor rule.
    pub fn diggable_at(&self, r: usize, c: usize, diag: bool) -> (res: bool)
        ensures
            res == diggable(self@, r as int, c as int, diag),
    {
        let v = match self.at(r, c) {
            Some(v) => v,
            None => {
                return false;
            },
        };
        let h = self.rows.len();
        let w = self.rows[r].len();
        proof {
            assert(r < h && c < w);
        }
        let up_ok = r >= 1 && ge_at(self.at(r - 1, c), v);
        let down_ok = ge_at(self.at(r + 1, c), v);
        let left_ok = c >= 1 && ge_at(self.at(r, c - 1), v);
        let right_ok = ge_at(self.at(r, c + 1), v);
        if !(up_ok && down_ok && left_ok && right_ok) {
            return false;
        }
        if diag {
            let ul = r >= 1 && c >= 1 && ge_at(self.at(r - 1, c - 1), v);
            let ur = r >= 1 && ge_at(self.at(r - 1, c + 1), v);
            let dl = c >= 1 && ge_at(self.at(r + 1, c - 1), v);
            let dr = ge_at(self.at(r + 1, c + 1), v);
            ul && ur && dl && dr
        } else {
            true
        }
    }

    /// Digs the cell at `(r, c)` one deeper; outside the map or on bare
    /// soil it changes nothing. A cell at the deepest representable depth
    /// cannot be dug further and is left out.
    pub fn increment(&mut self, r: usize, c: usize)
        requires
            (r < old(self)@.len() && c < old(self)@[r as int].len() && old(self)@[r as int].index(
                c as int,
            ) is Some) ==> old(self)@[r as int][c as int].unwrap() < usize::MAX,
        ensures
            final(self)@ == (if r < old(self)@.len() && c < old(self)@[r as int].len() && old(
                self,
            )@[r as int][c as int] is Some {
                dig(old(self)@, r as int, c as int)
            } else {
                old(self)@
            }),
    {
        if r < self.rows.len() && c < self.rows[r].len() {
            if let Some(v) = self.rows[r][c] {
                proof {
                    assert(old(self)@[r as int][c as int] == self@[r as int][c as int]);
                }
                self.rows[r][c] = Some(v + 1);
                proof {
                    assert(self@ =~= dig(old(self)@, r as int, c as int)) by {
                        assert forall|i: int| 0 <= i < self@.len() implies self@[i] =~= dig(
                            old(self)@,
                            r as int,
                            c as int,
                        )[i] by {}
                    }
                }
            }
        }
    }

    /// The summed depth of the whole map, or `None` when it passes `usize`.
    pub fn sum(&self) -> (res: Option<usize>)
        ensures
            match res {
                Some(v) => v as nat == terrain_sum(self@),
                None => terrain_sum(self@) > usize::MAX,
            },
    {
        let mut total: usize = 0;
        let mut i: usize = 0;
        proof {
            assert(self@.take(0) =~= Seq::<Seq<Option<usize>>>::empty());
        }
        while i < self.rows.len()
            invariant
                0 <= i <= self@.len(),
                self@.len() == self.rows@.len(),
                total as nat == terrain_sum(self@.take(i as int)),
            decreases self@.len() - i,
        {
            let row = &self.rows[i];
            let mut j: usize = 0;
            let mut rsum: usize = 0;
            proof {
                assert(row@.take(0) =~= Seq::<Option<usize>>::empty());
            }
            while j < row.len()
                invariant
                    0 <= j <= row@.len(),
                    row@ == self@[i as int],
                    0 <= i < self@.len(),
                    total as nat == terrain_sum(self@.take(i as int)),
                    rsum as nat == row_sum(row@.take(j as int)),
                decreases row@.len() - j,
            {
                proof {
                    assert(row@.take(j + 1).drop_last() =~= row@.take(j as int));
                    assert(row@.take(j + 1).last() == row@[j as int]);
                }
                match row[j] {
                    Some(v) => {
                        if rsum > usize::MAX - v {
                            proof {
                                lemma_sum_prefix_row(self@, i as int, j + 1);
                            }
                            return None;
                        }
                        rsum = rsum + v;
                    },
                    None => {},
                }
                j += 1;
            }
            proof {
                assert(row@.take(row@.len() as int) =~= row@);
                assert(self@.take(i + 1).drop_last() =~= self@.take(i as int));
                assert(self@.take(i + 1).last() == self@[i as int]);
            }
            if total > usize::MAX - rsum {
                proof {
                    lemma_sum_prefix(self@, i + 1);
                }
                return None;
            }
            total = total + rsum;
            i += 1;
        }
        proof {
            assert(self@.take(self@.len() as int) =~= self@);
        }
        Some(total)
    }
}

/// The optional depth `o` exists and is at least `v`.
fn ge_at(o: Option<usize>, v: usize) -> (r: bool)
    ensures
        r == (o is Some && o.unwrap() >= v),
{
    match o {
        Some(x) => x >= v,
        None => false,
    }
}

/// A prefix of the terrain never sums deeper than the whole.
proof fn lemma_sum_prefix(m: Terrain, k: int)
    requires
        0 <= k <= m.len(),
    ensures
        terrain_sum(m.take(k)) <= terrain_sum(m),
    decreases m.len() - k,
{
    if k < m.len() {
        lemma_sum_prefix(m, k + 1);
        assert(m.take(k + 1).drop_last() =~= m.take(k));
        assert(m.take(k + 1).last() == m[k]);
    } else {
        assert(m.take(k) =~= m);
    }
}

/// A prefix of one row, on top of the rows before it, never sums deeper than
/// the whole terrain.
proof fn lemma_sum_prefix_row(m: Terrain, i: int, j: int)
    requires
        0 <= i < m.len(),
        0 <= j <= m[i].len(),
    ensures
        terrain_sum(m.take(i)) + row_sum(m[i].take(j)) <= terrain_sum(m),
    decreases m[i].len() - j,
{
    if j < m[i].len() {
        lemma_sum_prefix_row(m, i, j + 1);
        assert(m[i].take(j + 1).drop_last() =~= m[i].take(j));
        assert(m[i].take(j + 1).last() == m[i][j]);
    } else {
        assert(m[i].take(j) =~= m[i]);
        lemma_sum_prefix(m, i + 1);
        assert(m.take(i + 1).drop_last() =~= m.take(i));
        assert(m.take(i + 1).last() == m[i]);
    }
}


/// A legal trace extended by one dig of its last terrain stays legal.
proof fn lemma_trace_push(tr: Seq<Terrain>, m2: Terrain, r: int, c: int, diag: bool)
    requires
        legal_trace(tr, diag),
        diggable(tr.last(), r, c, diag),
        m2 == dig(tr.last(), r, c),
    ensures
        legal_trace(tr.push(m2), diag),
{
    let tr2 = tr.push(m2);
    assert forall|i: int| 0 <= i < tr2.len() - 1 implies #[trigger] trace_step(tr2, i, diag) by {
        if i < tr.len() - 1 {
            assert(trace_step(tr, i, diag));
            let (rr, cc) = choose|rr: int, cc: int|
                #![trigger diggable(tr[i], rr, cc, diag)]
                diggable(tr[i], rr, cc, diag) && tr[i + 1] == dig(tr[i], rr, cc);
            assert(tr2[i] == tr[i] && tr2[i + 1] == tr[i + 1]);
            assert(diggable(tr2[i], rr, cc, diag) && tr2[i + 1] == dig(tr2[i], rr, cc));
        } else {
            assert(tr2[i] == tr.last() && tr2[i + 1] == m2);
            assert(diggable(tr2[i], r, c, diag) && tr2[i + 1] == dig(tr2[i], r, c));
        }
    }
}

impl TerrainMap {
    /// Digs until no cell may be dug: row-major passes under the chosen
    /// neighbor rule, repeated until a whole pass changes nothing. The runs
    /// of digs form a legal trace from the starting terrain to a fixed one.
    pub fn run(&mut self, diag: bool)
        requires
            rect(old(self)@),
            depth_inv(old(self)@),
        ensures
            exists|tr: Seq<Terrain>|
                legal_trace(tr, diag) && tr[0] == old(self)@ && tr.last() == final(self)@,
            is_fixed(final(self)@, diag),
            rect(final(self)@),
            depth_inv(final(self)@),
    {
        let ghost m0 = self@;
        let ghost mut tr: Seq<Terrain> = seq![m0];
        let mut changed = true;
        proof {
            lemma_sum_le_cap(self@);
            assert(tr.last() == self@);
        }
        while changed
            invariant
                rect(self@),
                depth_inv(self@),
                legal_trace(tr, diag),
                tr.len() >= 1,
                tr[0] == m0,
                tr.last() == self@,
                terrain_sum(self@) <= terrain_cap(self@),
                terrain_cap(self@) == terrain_cap(m0),
                !changed ==> is_fixed(self@, diag),
            decreases
                    (terrain_cap(self@) - terrain_sum(self@)) * 2 + (if changed {
                        1int
                    } else {
                        0int
                    }),
        {
            changed = false;
            let ghost pass0 = self@;
            let ghost sum0 = terrain_sum(self@);
            let h = self.rows.len();
            let mut r: usize = 0;
            while r < h
                invariant
                    0 <= r <= h,
                    h == self@.len(),
                    rect(self@),
                    depth_inv(self@),
                    legal_trace(tr, diag),
                    tr.len() >= 1,
                    tr[0] == m0,
                    tr.last() == self@,
                    terrain_sum(self@) <= terrain_cap(self@),
                    terrain_cap(self@) == terrain_cap(m0),
                    sum0 <= terrain_sum(self@),
                    changed ==> terrain_sum(self@) >= sum0 + 1,
                    !changed ==> self@ == pass0,
                    !changed ==> forall|r2: int, c2: int|
                        0 <= r2 < r ==> !diggable(self@, r2, c2, diag),
                decreases h - r,
            {
                let w = self.rows[r].len();
                let mut c: usize = 0;
                while c < w
                    invariant
                        0 <= c <= w,
                        0 <= r < h,
                        h == self@.len(),
                        w == self@[r as int].len(),
                        rect(self@),
                        depth_inv(self@),
                        legal_trace(tr, diag),
                        tr.len() >= 1,
                        tr[0] == m0,
                        tr.last() == self@,
                        terrain_sum(self@) <= terrain_cap(self@),
                        terrain_cap(self@) == terrain_cap(m0),
                        sum0 <= terrain_sum(self@),
                        changed ==> terrain_sum(self@) >= sum0 + 1,
                        !changed ==> self@ == pass0,
                        !changed ==> forall|r2: int, c2: int|
                            (0 <= r2 < r || (r2 == r && 0 <= c2 < c)) ==> !diggable(
                                self@,
                                r2,
                                c2,
                                diag,
                            ),
                    decreases w - c,
                {
                    if self.diggable_at(r, c, diag) {
                        let ghost pre = self@;
                        proof {
                            lemma_depth_bound(self@, r as int, c as int);
                            let v0 = self@[r as int][c as int].unwrap() as nat;
                            assert(cell_ge(self@, r as int + 1, c as int, v0));
                            assert(self@[r as int][c as int].unwrap() < usize::MAX);
                        }
                        self.increment(r, c);
                        proof {
                            lemma_dig_keeps_inv(pre, r as int, c as int, diag);
                            lemma_dig_sum(pre, r as int, c as int);
                            lemma_cap_congruent(self@, pre);
                            lemma_sum_le_cap(self@);
                            lemma_trace_push(tr, self@, r as int, c as int, diag);
                            let ghost tr2 = tr.push(self@);
                            tr = tr2;
                        }
                        changed = true;
                    }
                    c += 1;
                }
                r += 1;
            }
            proof {
                if !changed {
                    assert forall|r2: int, c2: int| !diggable(self@, r2, c2, diag) by {
                        if 0 <= r2 < h {
                        } else {
                        }
                    }
                }
            }
        }
        proof {
            assert(legal_trace(tr, diag) && tr[0] == m0 && tr.last() == self@);
        }
    }
}

/// Fixed-point dig under the cross rule: the terrain is dug cell by cell,
/// each dig at a cell all four of whose cross neighbors are at least as
/// deep, until no such cell is left; the answer is the summed depth then.
/// `None` exactly when the input is malformed or the summed depth passes
/// `usize`.
pub fn part1and2(input: &[u8]) -> (r: Option<usize>)
    ensures
        ({
            let lns = parse::spec_lines(input@);
            match r {
                Some(v) => terrain_lines_ok(lns) && exists|tr: Seq<Terrain>|
                    legal_trace(tr, false) && tr[0] == parse_terrain(lns) && is_fixed(
                        tr.last(),
                        false,
                    ) && v as nat == terrain_sum(tr.last()),
                None => !terrain_lines_ok(lns) || exists|tr: Seq<Terrain>|
                    legal_trace(tr, false) && tr[0] == parse_terrain(lns) && is_fixed(
                        tr.last(),
                        false,
                    ) && terrain_sum(tr.last()) > usize::MAX,
            }
        }),
{
    solve(input, false)
}

/// Fixed-point dig under the full rule: as [`part1and2`], with all eight
/// neighbors, the diagonals included, required to be at least as deep.
pub fn part3(input: &[u8]) -> (r: Option<usize>)
    ensures
        ({
            let lns = parse::spec_lines(input@);
            match r {
                Some(v) => terrain_lines_ok(lns) && exists|tr: Seq<Terrain>|
                    legal_trace(tr, true) && tr[0] == parse_terrain(lns) && is_fixed(
                        tr.last(),
                        true,
                    ) && v as nat == terrain_sum(tr.last()),
                None => !terrain_lines_ok(lns) || exists|tr: Seq<Terrain>|
                    legal_trace(tr, true) && tr[0] == parse_terrain(lns) && is_fixed(
                        tr.last(),
                        true,
                    ) && terrain_sum(tr.last()) > usize::MAX,
            }
        }),
{
    solve(input, true)
}

fn solve(input: &[u8], diag: bool) -> (r: Option<usize>)
    ensures
        ({
            let lns = parse::spec_lines(input@);
            match r {
                Some(v) => terrain_lines_ok(lns) && exists|tr: Seq<Terrain>|
                    legal_trace(tr, diag) && tr[0] == parse_terrain(lns) && is_fixed(
                        tr.last(),
                        diag,
                    ) && v as nat == terrain_sum(tr.last()),
                None => !terrain_lines_ok(lns) || exists|tr: Seq<Terrain>|
                    legal_trace(tr, diag) && tr[0] == parse_terrain(lns) && is_fixed(
                        tr.last(),
                        diag,
                    ) && terrain_sum(tr.last()) > usize::MAX,
            }
        }),
{
    let mut m = match TerrainMap::new(input) {
        Some(m) => m,
        None => {
            return None;
        },
    };
    proof {
        lemma_parse_terrain_inv(parse::spec_lines(input@));
    }
    m.run(diag);
    let ghost tr = choose|tr: Seq<Terrain>|
        legal_trace(tr, diag) && tr[0] == parse_terrain(parse::spec_lines(input@)) && tr.last()
            == m@;
    match m.sum() {
        Some(v) => Some(v),
        None => None,
    }
}

} // verus!



