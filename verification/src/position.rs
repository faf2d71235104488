use vstd::prelude::*;

verus! {

/// An immutable 2D coordinate: a non-negative row and column.
///
/// A `Position` may also serve as the inclusive upper-right corner of a
/// rectangle anchored at the origin; see [`Position::contains`].
#[derive(Clone, Copy, Debug, PartialEq, Eq, Hash, Structural)]
pub struct Position {
    pub row: usize,
    pub col: usize,
}

impl Position {
    /// The rectangle with corners (0, 0) and `self` (both inclusive)
    /// contains `pos`.
    pub open spec fn spec_contains(self, pos: Position) -> bool {
        pos.row <= self.row && pos.col <= self.col
    }

    /// The adjacent coordinates of `self` in clockwise order
    /// (Up, Right, Down, Left), leaving out Up when `row == 0` and Left when
    /// `col == 0`. Right and Down are always present: no upper bound applies.
    pub open spec fn spec_neighbors(self) -> Seq<Position> {
        (if self.row > 0 {
            seq![Position { row: (self.row - 1) as usize, col: self.col }]
        } else {
            Seq::<Position>::empty()
        }) + seq![
            Position { row: self.row, col: (self.col + 1) as usize },
            Position { row: (self.row + 1) as usize, col: self.col },
        ] + (if self.col > 0 {
            seq![Position { row: self.row, col: (self.col - 1) as usize }]
        } else {
            Seq::<Position>::empty()
        })
    }

    pub fn new(row: usize, col: usize) -> (r: Self)
        ensures
            r.row == row,
            r.col == col,
    {
        Self { row, col }
    }

    /// Whether `pos` lies within the rectangle defined by (0, 0) and `self`
    /// (both inclusive).
    pub fn contains(&self, pos: &Self) -> (r: bool)
        ensures
            r == self.spec_contains(*pos),
    {
        pos.row <= self.row && pos.col <= self.col
    }

    /// Every boundary corner contains itself.
    pub proof fn lemma_contains_reflexive(self)
        ensures
            self.spec_contains(self),
    {
    }

    /// The adjacent positions in clockwise order (Up, Right, Down, Left),
    /// skipping positions whose row or column would be negative.
    pub fn neighbors(&self) -> (r: Vec<Self>)
        requires
            self.row < usize::MAX,
            self.col < usize::MAX,
        ensures
            r@ == self.spec_neighbors(),
    {
        let mut r: Vec<Self> = Vec::new();
        if self.row > 0 {
            r.push(Self::new(self.row - 1, self.col));
        }
        r.push(Self::new(self.row, self.col + 1));
        r.push(Self::new(self.row + 1, self.col));
        if self.col > 0 {
            r.push(Self::new(self.row, self.col - 1));
        }
        proof {
            assert(r@ =~= self.spec_neighbors());
        }
        r
    }

    /// The adjacent positions in clockwise order (Up, Right, Down, Left),
    /// keeping only those inside the rectangle defined by (0, 0) and `max`.
    pub fn neighbors_contained(&self, max: Self) -> (r: Vec<Self>)
        requires
            self.row < usize::MAX,
            self.col < usize::MAX,
        ensures
            r@ == self.spec_neighbors().filter(|p: Position| max.spec_contains(p)),
    {
        let candidates = self.neighbors();
        let mut r: Vec<Self> = Vec::new();
        let mut i: usize = 0;
        while i < candidates.len()
            invariant
                0 <= i <= candidates@.len(),
                r@ == candidates@.take(i as int).filter(|p: Position| max.spec_contains(p)),
            decreases candidates@.len() - i,
        {
            let c = candidates[i];
            proof {
                let pred = |p: Position| max.spec_contains(p);
                reveal_with_fuel(Seq::<_>::filter, 2);
                assert(candidates@.take(i + 1).drop_last() =~= candidates@.take(i as int));
                assert(candidates@.take(i + 1).last() == c);
            }
            if max.contains(&c) {
                r.push(c);
            }
            i += 1;
        }
        proof {
            assert(candidates@.take(candidates@.len() as int) =~= candidates@);
        }
        r
    }
}

} // verus!
