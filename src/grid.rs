//! Fixed-size grids of optional values, indexed by coordinates.

use vstd::prelude::*;

use crate::direction::Direction;

verus! {

/// A coordinate on the grid: `x` grows eastward, `y` grows southward.
#[derive(Debug, Clone, Copy, PartialEq, Eq, Structural, Hash)]
pub struct GridIndex {
    pub x: usize,
    pub y: usize,
}

/// The width and height of a grid.
#[derive(Debug, Clone, Copy, PartialEq, Eq, Structural, Hash)]
pub struct GridSize {
    pub width: usize,
    pub height: usize,
}

/// Returned when an index lies outside the grid's size.
#[derive(Debug, Clone, Copy, PartialEq, Eq, Structural)]
pub struct IndexOutOfSize;

impl GridIndex {
    pub fn new(x: usize, y: usize) -> (r: Self)
        ensures
            r == (GridIndex { x, y }),
    {
        Self { x, y }
    }

    /// The neighboring coordinate in a direction, if it is a valid coordinate.
    pub open spec fn spec_moved_in(self, direction: Direction) -> Option<GridIndex> {
        match direction {
            Direction::E => if self.x < usize::MAX {
                Some(GridIndex { x: (self.x + 1) as usize, y: self.y })
            } else {
                None
            },
            Direction::N => if self.y > 0 {
                Some(GridIndex { x: self.x, y: (self.y - 1) as usize })
            } else {
                None
            },
            Direction::W => if self.x > 0 {
                Some(GridIndex { x: (self.x - 1) as usize, y: self.y })
            } else {
                None
            },
            Direction::S => if self.y < usize::MAX {
                Some(GridIndex { x: self.x, y: (self.y + 1) as usize })
            } else {
                None
            },
        }
    }

    /// The neighboring coordinate in a direction; `None` past the edge of the coordinate range.
    pub fn moved_in(self, direction: Direction) -> (r: Option<Self>)
        ensures
            r == self.spec_moved_in(direction),
    {
        match direction {
            Direction::E => if self.x < usize::MAX {
                Some(GridIndex { x: self.x + 1, y: self.y })
            } else {
                None
            },
            Direction::N => if self.y > 0 {
                Some(GridIndex { x: self.x, y: self.y - 1 })
            } else {
                None
            },
            Direction::W => if self.x > 0 {
                Some(GridIndex { x: self.x - 1, y: self.y })
            } else {
                None
            },
            Direction::S => if self.y < usize::MAX {
                Some(GridIndex { x: self.x, y: self.y + 1 })
            } else {
                None
            },
        }
    }
}

impl GridSize {
    pub fn new(width: usize, height: usize) -> (r: Self)
        ensures
            r == (GridSize { width, height }),
    {
        Self { width, height }
    }

    pub open spec fn spec_contains(self, index: GridIndex) -> bool {
        index.x < self.width && index.y < self.height
    }

    /// Whether an index lies inside the size.
    pub fn contains(&self, index: GridIndex) -> (r: bool)
        ensures
            r == self.spec_contains(index),
    {
        index.x < self.width && index.y < self.height
    }

    /// The number of positions.
    pub open spec fn area(self) -> int {
        self.width * self.height
    }

    /// Every index of the size, row by row from the north-west corner.
    pub fn indices(&self) -> (r: Vec<GridIndex>)
        requires
            self.area() <= usize::MAX,
        ensures
            r@.len() == self.area(),
            forall|k: int| 0 <= k < r@.len() ==> r@[k] == index_of(*self, k),
    {
        let mut r: Vec<GridIndex> = Vec::new();
        let mut y: usize = 0;
        while y < self.height
            invariant
                y <= self.height,
                self.area() <= usize::MAX,
                r@.len() == y * self.width,
                forall|k: int| 0 <= k < r@.len() ==> r@[k] == index_of(*self, k),
            decreases self.height - y,
        {
            let mut x: usize = 0;
            proof {
                lemma_mul_le(y as int, self.height as int, self.width as int);
            }
            while x < self.width
                invariant
                    x <= self.width,
                    y < self.height,
                    self.area() <= usize::MAX,
                    r@.len() == y * self.width + x,
                    forall|k: int| 0 <= k < r@.len() ==> r@[k] == index_of(*self, k),
                decreases self.width - x,
            {
                proof {
                    lemma_index_of_lin(*self, GridIndex { x, y });
                }
                r.push(GridIndex { x, y });
                x = x + 1;
            }
            proof {
                assert((y + 1) * self.width == y * self.width + self.width) by (nonlinear_arith);
            }
            y = y + 1;
        }
        assert(y * self.width == self.width * self.height) by (nonlinear_arith)
            requires
                y == self.height,
        ;
        r
    }
}

/// Walks the indices of a size row by row from the north-west corner.
pub struct GridSizeIter {
    size: GridSize,
    at: Option<GridIndex>,
}

impl GridSize {
    /// A walk over every index of the size.
    pub fn into_iter(self) -> (r: GridSizeIter)
        ensures
            r.spec_size() == self,
            r.spec_at() == (if self.width > 0 && self.height > 0 {
                Some(GridIndex { x: 0, y: 0 })
            } else {
                None
            }),
    {
        GridSizeIter {
            size: self,
            at: if self.width > 0 && self.height > 0 {
                Some(GridIndex { x: 0, y: 0 })
            } else {
                None
            },
        }
    }
}

impl GridSizeIter {
    pub closed spec fn spec_size(&self) -> GridSize {
        self.size
    }

    /// The index the walk gives next, if any.
    pub closed spec fn spec_at(&self) -> Option<GridIndex> {
        self.at
    }

    /// The index after `i` in row-major order, if it lies inside the size.
    pub open spec fn spec_after(size: GridSize, i: GridIndex) -> Option<GridIndex> {
        if i.x + 1 < size.width {
            Some(GridIndex { x: (i.x + 1) as usize, y: i.y })
        } else if i.y + 1 < size.height {
            Some(GridIndex { x: 0, y: (i.y + 1) as usize })
        } else {
            None
        }
    }

    /// Gives the next index of the walk.
    pub fn next(&mut self) -> (r: Option<GridIndex>)
        ensures
            r == old(self).spec_at(),
            final(self).spec_size() == old(self).spec_size(),
            final(self).spec_at() == match r {
                Some(i) => GridSizeIter::spec_after(old(self).spec_size(), i),
                None => None,
            },
    {
        match self.at {
            Some(current) => {
                self.at = if current.x < usize::MAX && current.x + 1 < self.size.width {
                    Some(GridIndex { x: current.x + 1, y: current.y })
                } else if current.y < usize::MAX && current.y + 1 < self.size.height {
                    Some(GridIndex { x: 0, y: current.y + 1 })
                } else {
                    None
                };
                Some(current)
            },
            None => None,
        }
    }
}

/// The position of an index in row-major order.
pub open spec fn lin(size: GridSize, index: GridIndex) -> int {
    index.x + index.y * size.width
}

/// The index at a row-major position.
pub open spec fn index_of(size: GridSize, li: int) -> GridIndex {
    GridIndex { x: (li % size.width as int) as usize, y: (li / size.width as int) as usize }
}

pub proof fn lemma_mul_le(a: int, b: int, c: int)
    requires
        0 <= a <= b,
        0 <= c,
    ensures
        a * c <= b * c,
{
    assert(a * c <= b * c) by (nonlinear_arith)
        requires
            0 <= a <= b,
            0 <= c,
    ;
}

/// An index inside the size has a row-major position inside the area.
pub proof fn lemma_lin_bounds(size: GridSize, index: GridIndex)
    requires
        size.spec_contains(index),
    ensures
        0 <= lin(size, index) < size.area(),
{
    let (x, y, w, h) = (index.x as int, index.y as int, size.width as int, size.height as int);
    assert(x + y * w < w * h) by (nonlinear_arith)
        requires
            0 <= x < w,
            0 <= y < h,
    ;
}

/// Row-major positions and indices correspond one to one.
pub proof fn lemma_index_of_lin(size: GridSize, index: GridIndex)
    requires
        size.spec_contains(index),
    ensures
        index_of(size, lin(size, index)) == index,
        0 <= lin(size, index) < size.area(),
{
    lemma_lin_bounds(size, index);
    let (x, y, w) = (index.x as int, index.y as int, size.width as int);
    vstd::arithmetic::div_mod::lemma_fundamental_div_mod_converse(x + y * w, w, y, x);
}

pub proof fn lemma_lin_index_of(size: GridSize, li: int)
    requires
        0 <= li < size.area(),
    ensures
        size.spec_contains(index_of(size, li)),
        lin(size, index_of(size, li)) == li,
{
    let (w, h) = (size.width as int, size.height as int);
    assert(w > 0) by (nonlinear_arith)
        requires
            0 <= li < w * h,
            h >= 0,
    ;
    vstd::arithmetic::div_mod::lemma_fundamental_div_mod(li, w);
    vstd::arithmetic::div_mod::lemma_div_pos_is_pos(li, w);
    vstd::arithmetic::div_mod::lemma_mod_bound(li, w);
    assert(li / w < h) by {
        vstd::arithmetic::div_mod::lemma_div_is_ordered(li, w * h - 1, w);
        vstd::arithmetic::div_mod::lemma_div_multiples_vanish_fancy(h - 1, w - 1, w);
        assert(w * h - 1 == w * (h - 1) + (w - 1)) by (nonlinear_arith);
    }
    assert(li == w * (li / w) + li % w);
    assert(w * (li / w) == (li / w) * w) by (nonlinear_arith);
}

/// The row-major position of an index inside the size, if it is inside.
pub fn get_linear_index(size: GridSize, grid_index: GridIndex) -> (r: Option<usize>)
    requires
        size.area() <= usize::MAX,
    ensures
        r.is_some() == size.spec_contains(grid_index),
        r.is_some() ==> r.unwrap() == lin(size, grid_index),
        r.is_some() ==> r.unwrap() < size.area(),
{
    if size.contains(grid_index) {
        proof {
            lemma_lin_bounds(size, grid_index);
        }
        Some(grid_index.x + grid_index.y * size.width)
    } else {
        None
    }
}

/// The index at a row-major position.
pub fn get_index_from_linear_index(size: GridSize, linear_index: usize) -> (r: GridIndex)
    requires
        linear_index < size.area(),
    ensures
        r == index_of(size, linear_index as int),
        size.spec_contains(r),
{
    proof {
        lemma_lin_index_of(size, linear_index as int);
    }
    GridIndex { x: linear_index % size.width, y: linear_index / size.width }
}

/// A fixed-size grid in which each position is empty or holds one value.
#[derive(Debug, Clone)]
pub struct Grid<T> {
    data: Vec<Option<T>>,
    size: GridSize,
}

impl<T> View for Grid<T> {
    type V = Seq<Option<T>>;

    /// The contents, position by position in row-major order.
    closed spec fn view(&self) -> Seq<Option<T>> {
        self.data@
    }
}

impl<T> Grid<T> {
    pub closed spec fn spec_size(&self) -> GridSize {
        self.size
    }

    /// The contents cover exactly the area of the size.
    pub open spec fn wf(&self) -> bool {
        &&& self@.len() == self.spec_size().area()
        &&& self.spec_size().area() <= usize::MAX
    }

    /// What the grid holds at an index; nothing outside its size.
    pub open spec fn at(&self, index: GridIndex) -> Option<T> {
        if self.spec_size().spec_contains(index) {
            self@[lin(self.spec_size(), index)]
        } else {
            None
        }
    }

    /// The number of positions that hold a value.
    pub open spec fn count(&self) -> nat {
        count_present(self@)
    }

    /// An empty grid of a size.
    pub fn with_size(size: GridSize) -> (r: Self)
        requires
            size.area() <= usize::MAX,
        ensures
            r.wf(),
            r.spec_size() == size,
            forall|li: int| 0 <= li < size.area() ==> (#[trigger] r@[li]).is_none(),
    {
        let n = size.width * size.height;
        let mut data: Vec<Option<T>> = Vec::new();
        let mut i: usize = 0;
        while i < n
            invariant
                i <= n,
                data@.len() == i,
                forall|li: int| 0 <= li < i ==> (#[trigger] data@[li]).is_none(),
            decreases n - i,
        {
            data.push(None);
            i = i + 1;
        }
        Self { data, size }
    }

    pub fn size(&self) -> (r: GridSize)
        ensures
            r == self.spec_size(),
    {
        self.size
    }

    pub fn width(&self) -> (r: usize)
        ensures
            r == self.spec_size().width,
    {
        self.size.width
    }

    pub fn height(&self) -> (r: usize)
        ensures
            r == self.spec_size().height,
    {
        self.size.height
    }

    /// The number of positions that hold a value.
    pub fn len(&self) -> (r: usize)
        requires
            self.wf(),
        ensures
            r == self.count(),
    {
        let mut n: usize = 0;
        let mut i: usize = 0;
        while i < self.data.len()
            invariant
                i <= self.data@.len(),
                n == count_present(self.data@.subrange(0, i as int)),
                n <= i,
            decreases self.data@.len() - i,
        {
            proof {
                lemma_count_present_push(self.data@, i as int);
            }
            if self.data[i].is_some() {
                n = n + 1;
            }
            i = i + 1;
        }
        assert(self.data@.subrange(0, i as int) == self.data@);
        n
    }

    /// Puts a value at an index and returns what was there.
    pub fn insert(&mut self, grid_index: GridIndex, value: T) -> (r: Result<Option<T>, IndexOutOfSize>)
        requires
            old(self).wf(),
        ensures
            final(self).wf(),
            final(self).spec_size() == old(self).spec_size(),
            r.is_err() <==> !old(self).spec_size().spec_contains(grid_index),
            r.is_err() ==> final(self)@ == old(self)@,
            r.is_ok() ==> r == Ok::<Option<T>, IndexOutOfSize>(old(self).at(grid_index)),
            r.is_ok() ==> final(self)@ == old(self)@.update(lin(old(self).spec_size(), grid_index), Some(value)),
    {
        match get_linear_index(self.size, grid_index) {
            Some(li) => {
                assert(self.data@.len() == self@.len());
                let mut v = Some(value);
                std::mem::swap(&mut v, &mut self.data[li]);
                Ok(v)
            },
            None => Err(IndexOutOfSize),
        }
    }

    /// Empties an index and returns what was there.
    pub fn remove(&mut self, grid_index: GridIndex) -> (r: Result<Option<T>, IndexOutOfSize>)
        requires
            old(self).wf(),
        ensures
            final(self).wf(),
            final(self).spec_size() == old(self).spec_size(),
            r.is_err() <==> !old(self).spec_size().spec_contains(grid_index),
            r.is_err() ==> final(self)@ == old(self)@,
            r.is_ok() ==> r == Ok::<Option<T>, IndexOutOfSize>(old(self).at(grid_index)),
            r.is_ok() ==> final(self)@ == old(self)@.update(lin(old(self).spec_size(), grid_index), None),
    {
        match get_linear_index(self.size, grid_index) {
            Some(li) => {
                assert(self.data@.len() == self@.len());
                let mut v = None;
                std::mem::swap(&mut v, &mut self.data[li]);
                Ok(v)
            },
            None => Err(IndexOutOfSize),
        }
    }

    /// Whether an index holds a value.
    pub fn contains(&self, grid_index: GridIndex) -> (r: bool)
        requires
            self.wf(),
        ensures
            r == self.at(grid_index).is_some(),
    {
        match get_linear_index(self.size, grid_index) {
            Some(li) => self.data[li].is_some(),
            None => false,
        }
    }

    /// The value at an index.
    pub fn get(&self, grid_index: GridIndex) -> (r: Option<&T>)
        requires
            self.wf(),
        ensures
            r.is_some() == self.at(grid_index).is_some(),
            r.is_some() ==> self.at(grid_index) == Some(*r.unwrap()),
    {
        match get_linear_index(self.size, grid_index) {
            Some(li) => self.data[li].as_ref(),
            None => None,
        }
    }

    /// The value at an index, to change in place.
    pub fn get_mut(&mut self, grid_index: GridIndex) -> (r: Option<&mut T>)
        requires
            old(self).wf(),
        ensures
            r.is_some() == old(self).at(grid_index).is_some(),
            r.is_none() ==> final(self)@ == old(self)@ && final(self).spec_size() == old(self).spec_size(),
            match r {
                Some(x) => *x == old(self).at(grid_index).unwrap() && final(self).spec_size() == old(self).spec_size()
                    && final(self)@ == old(self)@.update(lin(old(self).spec_size(), grid_index), Some(*final(x))),
                None => true,
            },
    {
        match get_linear_index(self.size, grid_index) {
            Some(li) => {
                assert(self.data@.len() == self@.len());
                self.data[li].as_mut()
            },
            None => None,
        }
    }

    /// Exchanges what two indices hold.
    pub fn swap(&mut self, a: GridIndex, b: GridIndex)
        requires
            old(self).wf(),
            old(self).spec_size().spec_contains(a),
            old(self).spec_size().spec_contains(b),
        ensures
            final(self).wf(),
            final(self).spec_size() == old(self).spec_size(),
            final(self)@ == old(self)@.update(lin(old(self).spec_size(), a), old(self).at(b)).update(
                lin(old(self).spec_size(), b),
                old(self).at(a),
            ),
    {
        let la = get_linear_index(self.size, a).unwrap();
        let lb = get_linear_index(self.size, b).unwrap();
        if la != lb {
            let mut held = None;
            std::mem::swap(&mut held, &mut self.data[la]);
            std::mem::swap(&mut held, &mut self.data[lb]);
            self.data.set(la, held);
        } else {
            proof {
                assert(self.data@.update(la as int, self.data@[lb as int]).update(lb as int, self.data@[la as int])
                    =~= self.data@);
            }
        }
    }

    /// The indices that hold a value, in row-major order.
    pub fn indicies(&self) -> (r: Vec<GridIndex>)
        requires
            self.wf(),
        ensures
            forall|k: int| 0 <= k < r@.len() ==> self.at(#[trigger] r@[k]).is_some(),
            forall|i: GridIndex| #[trigger] self.at(i).is_some() ==> r@.contains(i),
    {
        let mut r: Vec<GridIndex> = Vec::new();
        let mut li: usize = 0;
        while li < self.data.len()
            invariant
                self.wf(),
                li <= self.data@.len(),
                forall|k: int| 0 <= k < r@.len() ==> self.at(#[trigger] r@[k]).is_some(),
                forall|i: GridIndex| #[trigger] self.at(i).is_some() && lin(self.spec_size(), i) < li ==> r@.contains(i),
            decreases self.data@.len() - li,
        {
            let index = get_index_from_linear_index(self.size, li);
            proof {
                lemma_lin_index_of(self.size, li as int);
            }
            if self.data[li].is_some() {
                let ghost old_r = r@;
                r.push(index);
                proof {
                    assert(r@[r@.len() - 1] == index);
                    assert forall|i: GridIndex| #[trigger] self.at(i).is_some() && lin(self.spec_size(), i) < li + 1
                        implies r@.contains(i) by {
                        if lin(self.spec_size(), i) < li {
                            let k = choose|k: int| 0 <= k < old_r.len() && old_r[k] == i;
                            assert(r@[k] == i);
                        } else {
                            lemma_index_of_lin(self.size, i);
                        }
                    }
                }
            } else {
                proof {
                    assert forall|i: GridIndex| #[trigger] self.at(i).is_some() && lin(self.spec_size(), i) < li + 1
                        implies r@.contains(i) by {
                        if lin(self.spec_size(), i) == li {
                            lemma_index_of_lin(self.size, i);
                        }
                    }
                }
            }
            li = li + 1;
        }
        proof {
            assert forall|i: GridIndex| #[trigger] self.at(i).is_some() implies r@.contains(i) by {
                lemma_lin_bounds(self.size, i);
            }
        }
        r
    }
}

impl<T: Copy> Grid<T> {
    /// A copy of the grid.
    pub fn cloned(&self) -> (r: Self)
        requires
            self.wf(),
        ensures
            r.wf(),
            r.spec_size() == self.spec_size(),
            r@ == self@,
    {
        let mut data: Vec<Option<T>> = Vec::new();
        let mut i: usize = 0;
        while i < self.data.len()
            invariant
                i <= self.data@.len(),
                data@ == self.data@.subrange(0, i as int),
            decreases self.data@.len() - i,
        {
            data.push(self.data[i]);
            i = i + 1;
        }
        assert(self.data@.subrange(0, i as int) == self.data@);
        Grid { data, size: self.size }
    }

    /// The value at a row-major position.
    pub fn get_at_linear(&self, li: usize) -> (r: Option<T>)
        requires
            self.wf(),
            li < self@.len(),
        ensures
            r == self@[li as int],
    {
        self.data[li]
    }

    /// Replaces the value at a row-major position.
    pub fn set_at_linear(&mut self, li: usize, value: Option<T>)
        requires
            old(self).wf(),
            li < old(self)@.len(),
        ensures
            final(self).wf(),
            final(self).spec_size() == old(self).spec_size(),
            final(self)@ == old(self)@.update(li as int, value),
    {
        self.data.set(li, value);
    }

    /// The indices that hold a value with what they hold, in row-major order.
    pub fn iter(&self) -> (r: Vec<(GridIndex, T)>)
        requires
            self.wf(),
        ensures
            forall|k: int| 0 <= k < r@.len() ==> self.at((#[trigger] r@[k]).0) == Some(r@[k].1),
            forall|i: GridIndex| #[trigger] self.at(i).is_some() ==> exists|k: int| 0 <= k < r@.len() && r@[k].0 == i,
    {
        let mut r: Vec<(GridIndex, T)> = Vec::new();
        let mut li: usize = 0;
        while li < self.data.len()
            invariant
                self.wf(),
                li <= self.data@.len(),
                forall|k: int| 0 <= k < r@.len() ==> self.at((#[trigger] r@[k]).0) == Some(r@[k].1),
                forall|i: GridIndex| #[trigger] self.at(i).is_some() && lin(self.spec_size(), i) < li
                    ==> exists|k: int| 0 <= k < r@.len() && r@[k].0 == i,
            decreases self.data@.len() - li,
        {
            let index = get_index_from_linear_index(self.size, li);
            proof {
                lemma_lin_index_of(self.size, li as int);
            }
            match self.data[li] {
                Some(v) => {
                    let ghost old_r = r@;
                    r.push((index, v));
                    proof {
                        assert(r@[r@.len() - 1] == (index, v));
                        assert forall|i: GridIndex| #[trigger] self.at(i).is_some() && lin(self.spec_size(), i) < li + 1
                            implies exists|k: int| 0 <= k < r@.len() && r@[k].0 == i by {
                            if lin(self.spec_size(), i) < li {
                                let k = choose|k: int| 0 <= k < old_r.len() && old_r[k].0 == i;
                                assert(r@[k].0 == i);
                            } else {
                                lemma_index_of_lin(self.size, i);
                                assert(r@[r@.len() - 1].0 == i);
                            }
                        }
                    }
                },
                None => {
                    proof {
                        assert forall|i: GridIndex| #[trigger] self.at(i).is_some() && lin(self.spec_size(), i) < li + 1
                            implies exists|k: int| 0 <= k < r@.len() && r@[k].0 == i by {
                            if lin(self.spec_size(), i) == li {
                                lemma_index_of_lin(self.size, i);
                            }
                        }
                    }
                },
            }
            li = li + 1;
        }
        proof {
            assert forall|i: GridIndex| #[trigger] self.at(i).is_some() implies exists|k: int|
                0 <= k < r@.len() && r@[k].0 == i by {
                lemma_lin_bounds(self.size, i);
            }
        }
        r
    }

    /// The neighbor of an index in a direction, with what it holds.
    pub fn get_neighbor(&self, index: GridIndex, direction: Direction) -> (r: Option<(GridIndex, T)>)
        requires
            self.wf(),
        ensures
            r.is_some() <==> (index.spec_moved_in(direction).is_some() && self.at(
                index.spec_moved_in(direction).unwrap(),
            ).is_some()),
            r.is_some() ==> r.unwrap().0 == index.spec_moved_in(direction).unwrap() && self.at(r.unwrap().0) == Some(
                r.unwrap().1,
            ),
    {
        match index.moved_in(direction) {
            Some(moved) => match self.get(moved) {
                Some(v) => Some((moved, *v)),
                None => None,
            },
            None => None,
        }
    }

    /// The neighbors in the given directions that hold a value, with their
    /// direction, in the order of the directions.
    pub fn iter_neighbors_for(&self, index: GridIndex, directions: &[Direction]) -> (r: Vec<(GridIndex, Direction, T)>)
        requires
            self.wf(),
        ensures
            forall|k: int| 0 <= k < r@.len() ==> (#[trigger] r@[k]).0 == index.spec_moved_in(r@[k].1).unwrap()
                && index.spec_moved_in(r@[k].1).is_some() && self.at(r@[k].0) == Some(r@[k].2)
                && directions@.contains(r@[k].1),
            forall|d: Direction| directions@.contains(d) && index.spec_moved_in(d).is_some() && #[trigger] self.at(
                index.spec_moved_in(d).unwrap(),
            ).is_some() ==> exists|k: int| 0 <= k < r@.len() && r@[k].1 == d,
    {
        let mut r: Vec<(GridIndex, Direction, T)> = Vec::new();
        let mut i: usize = 0;
        while i < directions.len()
            invariant
                self.wf(),
                i <= directions@.len(),
                forall|k: int| 0 <= k < r@.len() ==> (#[trigger] r@[k]).0 == index.spec_moved_in(r@[k].1).unwrap()
                    && index.spec_moved_in(r@[k].1).is_some() && self.at(r@[k].0) == Some(r@[k].2)
                    && directions@.contains(r@[k].1),
                forall|j: int| 0 <= j < i ==> (index.spec_moved_in(#[trigger] directions@[j]).is_some() && self.at(
                    index.spec_moved_in(directions@[j]).unwrap(),
                ).is_some() ==> exists|k: int| 0 <= k < r@.len() && r@[k].1 == directions@[j]),
            decreases directions@.len() - i,
        {
            let d = directions[i];
            let ghost old_r = r@;
            match self.get_neighbor(index, d) {
                Some((moved, v)) => {
                    r.push((moved, d, v));
                    proof {
                        assert(directions@.contains(d));
                        assert(r@[r@.len() - 1].1 == d);
                        assert forall|k: int| 0 <= k < r@.len() implies (#[trigger] r@[k]).0 == index.spec_moved_in(
                            r@[k].1,
                        ).unwrap() && index.spec_moved_in(r@[k].1).is_some() && self.at(r@[k].0) == Some(r@[k].2)
                            && directions@.contains(r@[k].1) by {
                            if k < old_r.len() {
                                assert(r@[k] == old_r[k]);
                            }
                        }
                        assert forall|j: int| 0 <= j < i + 1 implies (index.spec_moved_in(#[trigger] directions@[j]).is_some()
                            && self.at(index.spec_moved_in(directions@[j]).unwrap()).is_some() ==> exists|k: int|
                            0 <= k < r@.len() && r@[k].1 == directions@[j]) by {
                            if j < i && index.spec_moved_in(directions@[j]).is_some() && self.at(
                                index.spec_moved_in(directions@[j]).unwrap(),
                            ).is_some() {
                                let k = choose|k: int| 0 <= k < old_r.len() && old_r[k].1 == directions@[j];
                                assert(r@[k].1 == directions@[j]);
                            }
                        }
                    }
                },
                None => {},
            }
            i = i + 1;
        }
        proof {
            assert forall|d: Direction| directions@.contains(d) && index.spec_moved_in(d).is_some() && #[trigger] self.at(
                index.spec_moved_in(d).unwrap(),
            ).is_some() implies exists|k: int| 0 <= k < r@.len() && r@[k].1 == d by {
                let j = choose|j: int| 0 <= j < directions@.len() && directions@[j] == d;
            }
        }
        r
    }

    /// The neighbors that hold a value, with their direction, in the order east, north, west, south.
    pub fn iter_neighbors(&self, index: GridIndex) -> (r: Vec<(GridIndex, Direction, T)>)
        requires
            self.wf(),
        ensures
            forall|k: int| 0 <= k < r@.len() ==> (#[trigger] r@[k]).0 == index.spec_moved_in(r@[k].1).unwrap()
                && index.spec_moved_in(r@[k].1).is_some() && self.at(r@[k].0) == Some(r@[k].2),
            forall|d: Direction| index.spec_moved_in(d).is_some() && #[trigger] self.at(
                index.spec_moved_in(d).unwrap(),
            ).is_some() ==> exists|k: int| 0 <= k < r@.len() && r@[k].1 == d,
    {
        let all = Direction::all();
        let mut r: Vec<(GridIndex, Direction, T)> = Vec::new();
        let mut i: usize = 0;
        while i < 4
            invariant
                self.wf(),
                i <= 4,
                all@ == seq![Direction::E, Direction::N, Direction::W, Direction::S],
                forall|k: int| 0 <= k < r@.len() ==> (#[trigger] r@[k]).0 == index.spec_moved_in(r@[k].1).unwrap()
                    && index.spec_moved_in(r@[k].1).is_some() && self.at(r@[k].0) == Some(r@[k].2),
                forall|j: int| 0 <= j < i ==> (index.spec_moved_in(#[trigger] all@[j]).is_some() && self.at(
                    index.spec_moved_in(all@[j]).unwrap(),
                ).is_some() ==> exists|k: int| 0 <= k < r@.len() && r@[k].1 == all@[j]),
            decreases 4 - i,
        {
            let d = all[i];
            let ghost old_r = r@;
            match self.get_neighbor(index, d) {
                Some((moved, v)) => {
                    r.push((moved, d, v));
                    proof {
                        assert(r@[r@.len() - 1].1 == d);
                        assert forall|j: int| 0 <= j < i + 1 implies (index.spec_moved_in(#[trigger] all@[j]).is_some()
                            && self.at(index.spec_moved_in(all@[j]).unwrap()).is_some() ==> exists|k: int|
                            0 <= k < r@.len() && r@[k].1 == all@[j]) by {
                            if j < i && index.spec_moved_in(all@[j]).is_some() && self.at(
                                index.spec_moved_in(all@[j]).unwrap(),
                            ).is_some() {
                                let k = choose|k: int| 0 <= k < old_r.len() && old_r[k].1 == all@[j];
                                assert(r@[k].1 == all@[j]);
                            }
                        }
                    }
                },
                None => {},
            }
            i = i + 1;
        }
        proof {
            assert forall|d: Direction| index.spec_moved_in(d).is_some() && #[trigger] self.at(
                index.spec_moved_in(d).unwrap(),
            ).is_some() implies exists|k: int| 0 <= k < r@.len() && r@[k].1 == d by {
                let j: int = match d {
                    Direction::E => 0,
                    Direction::N => 1,
                    Direction::W => 2,
                    Direction::S => 3,
                };
                assert(all@[j] == d);
            }
        }
        r
    }
}

/// After one position is replaced, every other position holds what it held.
pub proof fn lemma_at_update<T>(old_grid: Grid<T>, new_grid: Grid<T>, p: GridIndex, v: Option<T>)
    requires
        old_grid.wf(),
        new_grid.spec_size() == old_grid.spec_size(),
        old_grid.spec_size().spec_contains(p),
        new_grid@ == old_grid@.update(lin(old_grid.spec_size(), p), v),
    ensures
        new_grid.at(p) == v,
        forall|i: GridIndex| i != p ==> #[trigger] new_grid.at(i) == old_grid.at(i),
{
    let size = old_grid.spec_size();
    lemma_lin_bounds(size, p);
    lemma_index_of_lin(size, p);
    assert forall|i: GridIndex| i != p implies #[trigger] new_grid.at(i) == old_grid.at(i) by {
        if size.spec_contains(i) {
            lemma_index_of_lin(size, i);
            lemma_lin_bounds(size, i);
        }
    }
}

/// The number of present values in a sequence of optional values.
pub open spec fn count_present<T>(s: Seq<Option<T>>) -> nat
    decreases s.len(),
{
    if s.len() == 0 {
        0
    } else {
        count_present(s.drop_last()) + if s.last().is_some() { 1nat } else { 0nat }
    }
}

/// Replacing one entry changes the count by what the old and new entries hold.
pub proof fn lemma_count_present_update<T>(s: Seq<Option<T>>, i: int, v: Option<T>)
    requires
        0 <= i < s.len(),
    ensures
        count_present(s.update(i, v)) + (if s[i].is_some() { 1nat } else { 0nat }) == count_present(s) + (if v.is_some() {
            1nat
        } else {
            0nat
        }),
    decreases s.len(),
{
    let u = s.update(i, v);
    if i == s.len() - 1 {
        assert(u.drop_last() == s.drop_last());
    } else {
        assert(u.drop_last() == s.drop_last().update(i, v));
        lemma_count_present_update(s.drop_last(), i, v);
    }
}

/// A sequence of present values counts its length.
pub proof fn lemma_count_present_full<T>(s: Seq<Option<T>>)
    requires
        forall|i: int| 0 <= i < s.len() ==> (#[trigger] s[i]).is_some(),
    ensures
        count_present(s) == s.len(),
    decreases s.len(),
{
    if s.len() > 0 {
        lemma_count_present_full(s.drop_last());
    }
}

pub proof fn lemma_count_present_push<T>(s: Seq<Option<T>>, i: int)
    requires
        0 <= i < s.len(),
    ensures
        count_present(s.subrange(0, i + 1)) == count_present(s.subrange(0, i)) + if s[i].is_some() {
            1nat
        } else {
            0nat
        },
        count_present(s.subrange(0, i)) <= i,
    decreases i,
{
    assert(s.subrange(0, i + 1).drop_last() == s.subrange(0, i));
    if i > 0 {
        lemma_count_present_push(s, i - 1);
    }
}

} // verus!
