use vstd::prelude::*;
use crate::point::{Point, adjacent};

verus! {

/// A rectangular container with one value per cell, stored row by row.
pub struct Grid<T> {
    pub width: usize,
    pub height: usize,
    pub tiles: Vec<T>,
}

/// The mathematical content of a grid: its dimensions and its row-major cells.
pub struct GridView<T> {
    pub width: int,
    pub height: int,
    pub cells: Seq<T>,
}

impl<T> View for Grid<T> {
    type V = GridView<T>;

    open spec fn view(&self) -> GridView<T> {
        GridView { width: self.width as int, height: self.height as int, cells: self.tiles@ }
    }
}

/// The point one step west of `p`.
pub open spec fn west(p: Point) -> Point {
    Point { x: (p.x - 1) as i64, y: p.y }
}

/// The point one step east of `p`.
pub open spec fn east(p: Point) -> Point {
    Point { x: (p.x + 1) as i64, y: p.y }
}

/// The point one step north of `p`.
pub open spec fn north(p: Point) -> Point {
    Point { x: p.x, y: (p.y - 1) as i64 }
}

/// The point one step south of `p`.
pub open spec fn south(p: Point) -> Point {
    Point { x: p.x, y: (p.y + 1) as i64 }
}

impl<T> GridView<T> {
    /// The backing sequence holds exactly one value per cell, and every
    /// coordinate fits a signed 64-bit integer.
    pub open spec fn wf(self) -> bool {
        &&& 0 <= self.width <= i64::MAX
        &&& 0 <= self.height <= i64::MAX
        &&& self.cells.len() == self.width * self.height
    }

    pub open spec fn valid(self, p: Point) -> bool {
        0 <= p.x < self.width && 0 <= p.y < self.height
    }

    pub open spec fn index(self, p: Point) -> int {
        self.width * p.y + p.x
    }

    pub open spec fn at(self, p: Point) -> T {
        self.cells[self.index(p)]
    }

    pub open spec fn update(self, p: Point, v: T) -> GridView<T> {
        GridView { width: self.width, height: self.height, cells: self.cells.update(self.index(p), v) }
    }

    pub open spec fn same_shape<U>(self, other: GridView<U>) -> bool {
        self.width == other.width && self.height == other.height
    }

    /// `q` as a one-element sequence when it lies on the grid, else nothing.
    pub open spec fn keep(self, q: Point) -> Seq<Point> {
        if self.valid(q) { seq![q] } else { seq![] }
    }

    /// The on-grid orthogonal neighbours of `p`: west, east, north, south.
    pub open spec fn neighbors(self, p: Point) -> Seq<Point> {
        self.keep(west(p)) + self.keep(east(p)) + self.keep(north(p)) + self.keep(south(p))
    }
}

/// A valid point has an index inside the backing sequence.
pub proof fn lemma_index_in_bounds<T>(g: GridView<T>, p: Point)
    requires
        g.wf(),
        g.valid(p),
    ensures
        0 <= g.index(p) < g.cells.len(),
{
    let w = g.width;
    let h = g.height;
    let x = p.x as int;
    let y = p.y as int;
    assert(0 <= w * y) by (nonlinear_arith)
        requires 0 <= w, 0 <= y;
    assert(w * y + w <= w * h) by (nonlinear_arith)
        requires 0 <= w, y + 1 <= h;
}

/// Every neighbour of a point of the grid lies on the grid, one step away.
pub proof fn lemma_neighbors_adjacent<T>(g: GridView<T>, p: Point)
    requires
        g.wf(),
        g.valid(p),
    ensures
        forall|j: int| 0 <= j < g.neighbors(p).len() ==> g.valid(#[trigger] g.neighbors(p)[j]) && adjacent(p, g.neighbors(p)[j]),
{
    let a = g.keep(west(p));
    let b = g.keep(east(p));
    let c = g.keep(north(p));
    let d = g.keep(south(p));
    let s = g.neighbors(p);
    assert forall|j: int| 0 <= j < s.len() implies g.valid(#[trigger] s[j]) && adjacent(p, s[j]) by {
        let ab = a + b;
        let abc = ab + c;
        assert(s == abc + d);
        if j < abc.len() {
            assert(s[j] == abc[j]);
            if j < ab.len() {
                assert(abc[j] == ab[j]);
                if j < a.len() {
                    assert(ab[j] == a[j]);
                } else {
                    assert(ab[j] == b[j - a.len()]);
                }
            } else {
                assert(abc[j] == c[j - ab.len()]);
            }
        } else {
            assert(s[j] == d[j - abc.len()]);
        }
    }
}

/// Distinct points of the grid have distinct indices.
pub proof fn lemma_index_injective<T>(g: GridView<T>, p: Point, q: Point)
    requires
        g.wf(),
        g.valid(p),
        g.valid(q),
        g.index(p) == g.index(q),
    ensures
        p == q,
{
    let w = g.width;
    let (x1, y1, x2, y2) = (p.x as int, p.y as int, q.x as int, q.y as int);
    if y1 < y2 {
        assert(w * y1 + w <= w * y2) by (nonlinear_arith)
            requires 0 <= w, y1 + 1 <= y2;
    } else if y2 < y1 {
        assert(w * y2 + w <= w * y1) by (nonlinear_arith)
            requires 0 <= w, y2 + 1 <= y1;
    }
}

impl<T> Grid<T> {
    pub fn is_valid(&self, p: Point) -> (r: bool)
        requires
            self@.wf(),
        ensures
            r == self@.valid(p),
    {
        if p.x < 0 || p.x >= self.width as i64 {
            false
        } else if p.y < 0 || p.y >= self.height as i64 {
            false
        } else {
            true
        }
    }

    pub fn get_point(&self, p: Point) -> (r: Option<Point>)
        requires
            self@.wf(),
        ensures
            r == (if self@.valid(p) { Some(p) } else { None::<Point> }),
    {
        if self.is_valid(p) {
            Some(p)
        } else {
            None
        }
    }

    fn index_of(&self, p: Point) -> (r: usize)
        requires
            self@.wf(),
            self@.valid(p),
        ensures
            r == self@.index(p),
            r < self.tiles.len(),
    {
        proof {
            lemma_index_in_bounds(self@, p);
        }
        let y = p.y as usize;
        let x = p.x as usize;
        assert(y as int == p.y && x as int == p.x);
        assert(0 <= self.width * y) by (nonlinear_arith)
            requires 0 <= self.width, 0 <= y;
        assert(self.width * y + x == self@.index(p));
        assert(self@.index(p) < self.tiles.len());
        let row = self.width * y;
        row + x
    }

    /// Overwrites the cell at `p`.
    pub fn set(&mut self, p: Point, data: T)
        requires
            old(self)@.wf(),
            old(self)@.valid(p),
        ensures
            final(self)@ == old(self)@.update(p, data),
    {
        let i = self.index_of(p);
        self.tiles.set(i, data);
    }

    /// The cell at `p`, or `None` off the grid.
    pub fn get_ref(&self, p: Point) -> (r: Option<&T>)
        requires
            self@.wf(),
        ensures
            self@.valid(p) ==> r == Some(&self@.at(p)),
            !self@.valid(p) ==> r is None,
    {
        if self.is_valid(p) {
            let i = self.index_of(p);
            Some(&self.tiles[i])
        } else {
            None
        }
    }

    /// The cell at `p` for writing in place, or `None` off the grid.
    pub fn get_mut_ref(&mut self, p: Point) -> (r: Option<&mut T>)
        requires
            old(self)@.wf(),
        ensures
            !old(self)@.valid(p) ==> r is None && *final(self) == *old(self),
            old(self)@.valid(p) ==> (r matches Some(m) && *m == old(self)@.at(p) && final(self)@ == old(self)@.update(p, *final(m))),
    {
        if self.is_valid(p) {
            let i = self.index_of(p);
            Some(&mut self.tiles[i])
        } else {
            None
        }
    }

    /// Applies `f` to every cell, keeping the dimensions.
    pub fn map<U, F: Fn(&T) -> U>(&self, f: F) -> (r: Grid<U>)
        requires
            self@.wf(),
            forall|i: int| 0 <= i < self.tiles.len() ==> f.requires((&self.tiles@[i],)),
        ensures
            r@.wf(),
            r@.same_shape(self@),
            r.tiles.len() == self.tiles.len(),
            forall|i: int| 0 <= i < self.tiles.len() ==> f.ensures((&self.tiles@[i],), #[trigger] r.tiles@[i]),
    {
        let mut mapped: Vec<U> = Vec::new();
        let mut i: usize = 0;
        while i < self.tiles.len()
            invariant
                i <= self.tiles.len(),
                mapped.len() == i,
                forall|i: int| 0 <= i < self.tiles.len() ==> f.requires((&self.tiles@[i],)),
                forall|j: int| 0 <= j < i ==> f.ensures((&self.tiles@[j],), #[trigger] mapped@[j]),
            decreases self.tiles.len() - i,
        {
            let u = f(&self.tiles[i]);
            mapped.push(u);
            i = i + 1;
        }
        Grid { width: self.width, height: self.height, tiles: mapped }
    }

    /// The on-grid orthogonal neighbours of `p`, in the order west, east,
    /// north, south.
    pub fn neighbors(&self, p: Point) -> (r: Vec<Point>)
        requires
            self@.wf(),
            self@.valid(p),
        ensures
            r@ == self@.neighbors(p),
            forall|i: int| 0 <= i < r@.len() ==> self@.valid(#[trigger] r@[i]),
    {
        let offsets = [p.offset(1, 0), p.offset(-1, 0), p.offset(0, 1), p.offset(0, -1)];
        let mut out: Vec<Point> = Vec::new();
        let mut i: usize = 0;
        while i < 4
            invariant
                i <= 4,
                offsets@ == seq![west(p), east(p), north(p), south(p)],
                out@ == (if i == 0 { seq![] } else if i == 1 { self@.keep(west(p)) } else if i == 2 {
                    self@.keep(west(p)) + self@.keep(east(p))
                } else if i == 3 {
                    self@.keep(west(p)) + self@.keep(east(p)) + self@.keep(north(p))
                } else {
                    self@.neighbors(p)
                }),
                self@.wf(),
            decreases 4 - i,
        {
            let q = offsets[i];
            if self.is_valid(q) {
                out.push(q);
            }
            proof {
                assert(offsets@[i as int] == q);
            }
            i = i + 1;
        }
        out
    }
}

impl<T: Copy> Grid<T> {
    /// An independent copy of the grid with the cell at `p` replaced.
    pub fn replace(&self, p: Point, data: T) -> (r: Grid<T>)
        requires
            self@.wf(),
            self@.valid(p),
        ensures
            r@ == self@.update(p, data),
    {
        let mut copy: Vec<T> = Vec::new();
        let mut i: usize = 0;
        while i < self.tiles.len()
            invariant
                i <= self.tiles.len(),
                copy@ == self.tiles@.take(i as int),
            decreases self.tiles.len() - i,
        {
            copy.push(self.tiles[i]);
            i = i + 1;
            assert(copy@ =~= self.tiles@.take(i as int));
        }
        assert(copy@ =~= self.tiles@);
        let mut new = Grid { width: self.width, height: self.height, tiles: copy };
        new.set(p, data);
        new
    }
}

} // verus!
