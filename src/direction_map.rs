//! A value per direction, and sets of directions.

use vstd::prelude::*;

use crate::direction::{dir_turns, Direction, Rotation};

verus! {

/// One value per direction, written out by name.
#[derive(Debug, Clone, Copy, PartialEq, Eq, Default)]
pub struct DirectionMapData<T> {
    pub e: T,
    pub n: T,
    pub w: T,
    pub s: T,
}

/// A value for each of the four directions.
#[derive(Debug, Clone, Copy, PartialEq, Eq, Structural, Default)]
pub struct DirectionMap<T> {
    pub e: T,
    pub n: T,
    pub w: T,
    pub s: T,
}

/// The set of directions for which the map holds `true`.
pub type DirectionSet = DirectionMap<bool>;

impl<T> DirectionMap<T> {
    /// The value held for a direction.
    pub open spec fn at(self, d: Direction) -> T {
        match d {
            Direction::E => self.e,
            Direction::N => self.n,
            Direction::W => self.w,
            Direction::S => self.s,
        }
    }

    /// Two maps are equal when they agree on every direction.
    pub proof fn lemma_ext_equal(a: Self, b: Self)
        requires
            forall|d: Direction| #[trigger] a.at(d) == b.at(d),
        ensures
            a == b,
    {
        assert(a.at(Direction::E) == b.at(Direction::E));
        assert(a.at(Direction::N) == b.at(Direction::N));
        assert(a.at(Direction::W) == b.at(Direction::W));
        assert(a.at(Direction::S) == b.at(Direction::S));
    }

    /// A map whose values are made by calling `f` once per direction.
    pub fn new_with_initial<F: Fn() -> T>(f: F) -> (r: Self)
        requires
            f.requires(()),
        ensures
            forall|d: Direction| f.ensures((), #[trigger] r.at(d)),
    {
        let e = f();
        let n = f();
        let w = f();
        let s = f();
        Self { e, n, w, s }
    }

    /// A map from the values written out by name.
    pub fn new(data: DirectionMapData<T>) -> (r: Self)
        ensures
            r.at(Direction::E) == data.e,
            r.at(Direction::N) == data.n,
            r.at(Direction::W) == data.w,
            r.at(Direction::S) == data.s,
    {
        Self { e: data.e, n: data.n, w: data.w, s: data.s }
    }

    /// The value for a direction.
    pub fn get(&self, d: Direction) -> (r: &T)
        ensures
            *r == self.at(d),
    {
        match d {
            Direction::E => &self.e,
            Direction::N => &self.n,
            Direction::W => &self.w,
            Direction::S => &self.s,
        }
    }

    /// Replaces the value for a direction.
    pub fn set(&mut self, d: Direction, value: T)
        ensures
            final(self).at(d) == value,
            forall|o: Direction| o != d ==> #[trigger] final(self).at(o) == old(self).at(o),
    {
        match d {
            Direction::E => self.e = value,
            Direction::N => self.n = value,
            Direction::W => self.w = value,
            Direction::S => self.s = value,
        }
    }

    /// Applies `f` to the value of each direction, in the order east, north, west, south.
    pub fn map<Other, F: Fn(T) -> Other>(self, f: F) -> (r: DirectionMap<Other>)
        requires
            forall|d: Direction| f.requires((#[trigger] self.at(d),)),
        ensures
            forall|d: Direction| f.ensures((self.at(d),), #[trigger] r.at(d)),
    {
        assert(f.requires((self.at(Direction::E),)));
        assert(f.requires((self.at(Direction::N),)));
        assert(f.requires((self.at(Direction::W),)));
        assert(f.requires((self.at(Direction::S),)));
        let e = f(self.e);
        let n = f(self.n);
        let w = f(self.w);
        let s = f(self.s);
        DirectionMap { e, n, w, s }
    }
}

impl<T: Copy> DirectionMap<T> {
    /// The four pairs of direction and value, in the order east, north, west, south.
    pub fn iter(&self) -> (r: Vec<(Direction, T)>)
        ensures
            r@ == seq![
                (Direction::E, self.at(Direction::E)),
                (Direction::N, self.at(Direction::N)),
                (Direction::W, self.at(Direction::W)),
                (Direction::S, self.at(Direction::S)),
            ],
    {
        vec![(Direction::E, self.e), (Direction::N, self.n), (Direction::W, self.w), (Direction::S, self.s)]
    }

    /// A map holding the same value for every direction.
    pub fn new_with_repeat(value: T) -> (r: Self)
        ensures
            forall|d: Direction| #[trigger] r.at(d) == value,
    {
        Self { e: value, n: value, w: value, s: value }
    }

    /// The map turned by a rotation: what pointed in `d` now points in `d` rotated.
    pub open spec fn spec_rotated(self, rotation: Rotation) -> Self {
        match rotation {
            Rotation::Identity => self,
            Rotation::CounterClockwise => Self { e: self.s, n: self.e, w: self.n, s: self.w },
            Rotation::Half => Self { e: self.w, n: self.s, w: self.e, s: self.n },
            Rotation::Clockwise => Self { e: self.n, n: self.w, w: self.s, s: self.e },
        }
    }

    /// The map turned by a rotation.
    pub fn rotated(&self, rotation: Rotation) -> (r: Self)
        ensures
            r == self.spec_rotated(rotation),
            forall|d: Direction| #[trigger] r.at(d.spec_rotated(rotation)) == self.at(d),
    {
        match rotation {
            Rotation::Identity => *self,
            Rotation::CounterClockwise => Self { e: self.s, n: self.e, w: self.n, s: self.w },
            Rotation::Half => Self { e: self.w, n: self.s, w: self.e, s: self.n },
            Rotation::Clockwise => Self { e: self.n, n: self.w, w: self.s, s: self.e },
        }
    }
}

/// Rotating a map and then rotating it back gives the map unchanged.
pub proof fn lemma_map_rotate_inverse<T: Copy>(m: DirectionMap<T>, r: Rotation)
    ensures
        m.spec_rotated(r).spec_rotated(r.spec_inverse()) == m,
{
}

/// The number of directions in a set.
pub open spec fn dir_count(set: DirectionSet) -> nat {
    (if set.at(Direction::E) { 1nat } else { 0nat }) + (if set.at(Direction::N) { 1nat } else { 0nat })
        + (if set.at(Direction::W) { 1nat } else { 0nat }) + (if set.at(Direction::S) { 1nat } else { 0nat })
}

impl DirectionMap<bool> {
    /// The set with no direction.
    pub fn empty() -> (r: Self)
        ensures
            forall|d: Direction| !#[trigger] r.at(d),
    {
        Self::new_with_repeat(false)
    }

    /// The set of the given directions.
    pub fn from_iter(dirs: &[Direction]) -> (r: Self)
        ensures
            forall|d: Direction| #[trigger] r.at(d) <==> dirs@.contains(d),
    {
        let mut set = Self::empty();
        let mut i: usize = 0;
        while i < dirs.len()
            invariant
                i <= dirs@.len(),
                forall|d: Direction| #[trigger] set.at(d) <==> exists|j: int| 0 <= j < i && dirs@[j] == d,
            decreases dirs@.len() - i,
        {
            let d = dirs[i];
            set.insert(d);
            proof {
                assert forall|x: Direction| #[trigger] set.at(x) <==> exists|j: int| 0 <= j < i + 1 && dirs@[j] == x by {
                    if x == d {
                        assert(dirs@[i as int] == x);
                    }
                }
            }
            i = i + 1;
        }
        proof {
            assert forall|x: Direction| #[trigger] set.at(x) <==> dirs@.contains(x) by {
                if set.at(x) {
                    let j = choose|j: int| 0 <= j < i && dirs@[j] == x;
                    assert(dirs@.contains(x));
                }
            }
        }
        set
    }

    /// Whether the set holds a direction.
    pub fn contains(&self, direction: Direction) -> (r: bool)
        ensures
            r == self.at(direction),
    {
        *self.get(direction)
    }

    /// Adds a direction; returns whether it was there before.
    pub fn insert(&mut self, direction: Direction) -> (r: bool)
        ensures
            r == old(self).at(direction),
            final(self).at(direction),
            forall|o: Direction| o != direction ==> #[trigger] final(self).at(o) == old(self).at(o),
    {
        let rv = *self.get(direction);
        self.set(direction, true);
        rv
    }

    /// Removes a direction; returns whether it was there before.
    pub fn remove(&mut self, direction: Direction) -> (r: bool)
        ensures
            r == old(self).at(direction),
            !final(self).at(direction),
            forall|o: Direction| o != direction ==> #[trigger] final(self).at(o) == old(self).at(o),
    {
        let rv = *self.get(direction);
        self.set(direction, false);
        rv
    }

    /// The number of directions in the set.
    pub fn len(&self) -> (r: usize)
        ensures
            r == dir_count(*self),
    {
        let mut len: usize = 0;
        if self.e {
            len += 1;
        }
        if self.n {
            len += 1;
        }
        if self.w {
            len += 1;
        }
        if self.s {
            len += 1;
        }
        len
    }

    /// Whether the set holds no direction.
    pub fn is_empty(&self) -> (r: bool)
        ensures
            r <==> forall|d: Direction| !#[trigger] self.at(d),
            r <==> dir_count(*self) == 0,
    {
        if self.e || self.n || self.w || self.s {
            assert(self.at(Direction::E) || self.at(Direction::N) || self.at(Direction::W) || self.at(Direction::S));
            false
        } else {
            true
        }
    }

    /// The directions of the set, in the order east, north, west, south
    /// (counterclockwise from east).
    pub fn iter_set(&self) -> (r: Vec<Direction>)
        ensures
            forall|d: Direction| #[trigger] r@.contains(d) <==> self.at(d),
            r@.no_duplicates(),
            forall|a: int, b: int| 0 <= a < b < r@.len() ==> dir_turns(#[trigger] r@[a]) < dir_turns(#[trigger] r@[b]),
    {
        let all = Direction::all();
        let mut r: Vec<Direction> = Vec::new();
        let mut i: usize = 0;
        while i < 4
            invariant
                i <= 4,
                all@ == seq![Direction::E, Direction::N, Direction::W, Direction::S],
                forall|d: Direction| #[trigger] r@.contains(d) <==> (self.at(d) && dir_turns(d) < i),
                forall|k: int| 0 <= k < r@.len() ==> dir_turns(#[trigger] r@[k]) < i,
                forall|a: int, b: int| 0 <= a < b < r@.len() ==> dir_turns(#[trigger] r@[a]) < dir_turns(#[trigger] r@[b]),
                r@.no_duplicates(),
            decreases 4 - i,
        {
            let d = all[i];
            assert(dir_turns(d) == i);
            if *self.get(d) {
                let ghost old_r = r@;
                r.push(d);
                proof {
                    assert(r@ == old_r.push(d));
                    assert forall|x: Direction| #[trigger] r@.contains(x) <==> (self.at(x) && dir_turns(x) < i + 1) by {
                        if x == d {
                            assert(r@[r@.len() - 1] == x);
                        } else if r@.contains(x) {
                            let k = choose|k: int| 0 <= k < r@.len() && r@[k] == x;
                            assert(old_r[k] == x);
                            assert(old_r.contains(x));
                        } else if self.at(x) && dir_turns(x) < i {
                            assert(old_r.contains(x));
                            let k = choose|k: int| 0 <= k < old_r.len() && old_r[k] == x;
                            assert(r@[k] == x);
                        }
                    }
                }
            }
            i = i + 1;
        }
        r
    }

}

} // verus!
