//! The six colors, the rules some of them carry, and sets of colors.

use vstd::prelude::*;

verus! {

/// The six colors of the game.
#[derive(Debug, Clone, Copy, PartialEq, Eq, Structural, Hash)]
pub enum Color {
    Red,
    Orange,
    Yellow,
    Green,
    Blue,
    Purple,
}

/// The bit position of a color inside a color set.
pub open spec fn color_bit(c: Color) -> u8 {
    match c {
        Color::Red => 0,
        Color::Orange => 1,
        Color::Yellow => 2,
        Color::Green => 3,
        Color::Blue => 4,
        Color::Purple => 5,
    }
}

impl Color {
    /// The color whose presence lets a cell be swapped.
    pub const SWAP: Color = Color::Purple;

    /// The color whose presence keeps a cell from being swapped.
    pub const STOP: Color = Color::Red;

    /// The color that turns a moved cell counterclockwise.
    pub const CCW: Color = Color::Orange;

    /// The color that turns a moved cell clockwise.
    pub const CW: Color = Color::Yellow;

    /// All colors, in the order of their bits.
    pub fn all() -> (r: [Color; 6])
        ensures
            r@ == seq![Color::Red, Color::Orange, Color::Yellow, Color::Green, Color::Blue, Color::Purple],
            forall|k: int| 0 <= k < 6 ==> color_bit(#[trigger] r@[k]) == k,
    {
        [Color::Red, Color::Orange, Color::Yellow, Color::Green, Color::Blue, Color::Purple]
    }

    /// The bit position of the color inside a color set.
    pub fn bit(self) -> (r: u8)
        ensures
            r == color_bit(self),
            r < 6,
    {
        match self {
            Color::Red => 0,
            Color::Orange => 1,
            Color::Yellow => 2,
            Color::Green => 3,
            Color::Blue => 4,
            Color::Purple => 5,
        }
    }

    /// The position of the color in the list of all colors.
    pub fn index(self) -> (r: usize)
        ensures
            r == color_bit(self) as usize,
            r < 6,
    {
        match self {
            Color::Red => 0,
            Color::Orange => 1,
            Color::Yellow => 2,
            Color::Green => 3,
            Color::Blue => 4,
            Color::Purple => 5,
        }
    }
}

/// A set of colors, one bit per color.
#[derive(Debug, Clone, Copy, PartialEq, Eq, Structural)]
pub struct ColorSet(u8);

proof fn lemma_bits(a: u8, b: u8, j: u8, k: u8)
    requires
        j < 8,
        k < 8,
    ensures
        ((a | b) & (1u8 << k)) != 0 <==> ((a & (1u8 << k)) != 0 || (b & (1u8 << k)) != 0),
        ((a | (1u8 << j)) & (1u8 << k)) != 0 <==> ((a & (1u8 << k)) != 0 || j == k),
        ((a & !(1u8 << j)) & (1u8 << k)) != 0 <==> ((a & (1u8 << k)) != 0 && j != k),
        ((1u8 << j) & (1u8 << k)) != 0 <==> j == k,
        (0u8 & (1u8 << k)) == 0,
{
    assert(((a | b) & (1u8 << k)) != 0 <==> ((a & (1u8 << k)) != 0 || (b & (1u8 << k)) != 0)) by (bit_vector)
        requires
            k < 8,
    ;
    assert(((a | (1u8 << j)) & (1u8 << k)) != 0 <==> ((a & (1u8 << k)) != 0 || j == k)) by (bit_vector)
        requires
            j < 8,
            k < 8,
    ;
    assert(((a & !(1u8 << j)) & (1u8 << k)) != 0 <==> ((a & (1u8 << k)) != 0 && j != k)) by (bit_vector)
        requires
            j < 8,
            k < 8,
    ;
    assert(((1u8 << j) & (1u8 << k)) != 0 <==> j == k) by (bit_vector)
        requires
            j < 8,
            k < 8,
    ;
    assert((0u8 & (1u8 << k)) == 0) by (bit_vector);
}

proof fn lemma_bits_small(a: u8, b: u8, j: u8)
    requires
        j < 6,
        a < 64,
        b < 64,
    ensures
        a | b < 64,
        a | (1u8 << j) < 64,
        a & !(1u8 << j) < 64,
        1u8 << j < 64,
{
    assert(a | b < 64) by (bit_vector)
        requires
            a < 64,
            b < 64,
    ;
    assert(a | (1u8 << j) < 64 && a & !(1u8 << j) < 64 && 1u8 << j < 64) by (bit_vector)
        requires
            a < 64,
            j < 6,
    ;
}

proof fn lemma_bits_equal(a: u8, b: u8)
    requires
        a < 64,
        b < 64,
        ((a & (1u8 << 0u8)) != 0) == ((b & (1u8 << 0u8)) != 0),
        ((a & (1u8 << 1u8)) != 0) == ((b & (1u8 << 1u8)) != 0),
        ((a & (1u8 << 2u8)) != 0) == ((b & (1u8 << 2u8)) != 0),
        ((a & (1u8 << 3u8)) != 0) == ((b & (1u8 << 3u8)) != 0),
        ((a & (1u8 << 4u8)) != 0) == ((b & (1u8 << 4u8)) != 0),
        ((a & (1u8 << 5u8)) != 0) == ((b & (1u8 << 5u8)) != 0),
    ensures
        a == b,
{
    assert(a == b) by (bit_vector)
        requires
            a < 64,
            b < 64,
            ((a & (1u8 << 0u8)) != 0) == ((b & (1u8 << 0u8)) != 0),
            ((a & (1u8 << 1u8)) != 0) == ((b & (1u8 << 1u8)) != 0),
            ((a & (1u8 << 2u8)) != 0) == ((b & (1u8 << 2u8)) != 0),
            ((a & (1u8 << 3u8)) != 0) == ((b & (1u8 << 3u8)) != 0),
            ((a & (1u8 << 4u8)) != 0) == ((b & (1u8 << 4u8)) != 0),
            ((a & (1u8 << 5u8)) != 0) == ((b & (1u8 << 5u8)) != 0),
    ;
}

impl ColorSet {
    /// Only the six color bits may be set.
    pub closed spec fn wf(self) -> bool {
        self.0 < 64
    }

    /// Whether the set holds a color.
    pub closed spec fn has(self, c: Color) -> bool {
        (self.0 & (1u8 << color_bit(c))) != 0
    }

    /// The set with no color.
    pub closed spec fn nothing() -> ColorSet {
        ColorSet(0)
    }

    pub proof fn lemma_nothing()
        ensures
            ColorSet::nothing().wf(),
            ColorSet::nothing().spec_is_empty(),
            forall|s: ColorSet| s.wf() && s.spec_is_empty() ==> s == ColorSet::nothing(),
    {
        assert forall|c: Color| !#[trigger] ColorSet(0).has(c) by {
            lemma_bits(0, 0, 0, color_bit(c));
        }
        assert forall|s: ColorSet| s.wf() && s.spec_is_empty() implies s == ColorSet::nothing() by {
            ColorSet::lemma_ext_equal(s, ColorSet(0));
        }
    }

    /// Whether the set holds no color.
    pub open spec fn spec_is_empty(self) -> bool {
        forall|c: Color| !#[trigger] self.has(c)
    }

    /// The number of colors in the set.
    pub open spec fn spec_len(self) -> nat {
        (if self.has(Color::Red) { 1nat } else { 0nat }) + (if self.has(Color::Orange) { 1nat } else { 0nat })
            + (if self.has(Color::Yellow) { 1nat } else { 0nat }) + (if self.has(Color::Green) { 1nat } else { 0nat })
            + (if self.has(Color::Blue) { 1nat } else { 0nat }) + (if self.has(Color::Purple) { 1nat } else { 0nat })
    }

    /// Two well-formed sets that hold the same colors are equal.
    pub proof fn lemma_ext_equal(a: ColorSet, b: ColorSet)
        requires
            a.wf(),
            b.wf(),
            forall|c: Color| #[trigger] a.has(c) == b.has(c),
        ensures
            a == b,
    {
        assert(a.has(Color::Red) == b.has(Color::Red));
        assert(a.has(Color::Orange) == b.has(Color::Orange));
        assert(a.has(Color::Yellow) == b.has(Color::Yellow));
        assert(a.has(Color::Green) == b.has(Color::Green));
        assert(a.has(Color::Blue) == b.has(Color::Blue));
        assert(a.has(Color::Purple) == b.has(Color::Purple));
        lemma_bits_equal(a.0, b.0);
    }

    /// The set with no color.
    pub fn empty() -> (r: Self)
        ensures
            r == ColorSet::nothing(),
            r.wf(),
            r.spec_is_empty(),
    {
        proof {
            assert forall|c: Color| !#[trigger] ColorSet(0).has(c) by {
                lemma_bits(0, 0, 0, color_bit(c));
            }
        }
        Self(0)
    }

    /// The set of one color.
    pub closed spec fn spec_singleton(color: Color) -> ColorSet {
        ColorSet(1u8 << color_bit(color))
    }

    pub proof fn lemma_singleton(color: Color)
        ensures
            ColorSet::spec_singleton(color).wf(),
            forall|c: Color| #[trigger] ColorSet::spec_singleton(color).has(c) <==> c == color,
    {
        lemma_bits_small(0, 0, color_bit(color));
        assert forall|c: Color| #[trigger] ColorSet::spec_singleton(color).has(c) <==> c == color by {
            lemma_bits(0, 0, color_bit(color), color_bit(c));
        }
    }

    /// The set of one color.
    pub fn singleton(color: Color) -> (r: Self)
        ensures
            r == ColorSet::spec_singleton(color),
            r.wf(),
            forall|c: Color| #[trigger] r.has(c) <==> c == color,
    {
        let r = Self(1u8 << color.bit());
        proof {
            lemma_bits_small(0, 0, color_bit(color));
            assert forall|c: Color| #[trigger] r.has(c) <==> c == color by {
                lemma_bits(0, 0, color_bit(color), color_bit(c));
            }
        }
        r
    }

    /// Whether the set holds a color.
    pub fn contains(&self, color: Color) -> (r: bool)
        ensures
            r == self.has(color),
    {
        (self.0 & (1u8 << color.bit())) != 0
    }

    /// Adds a color.
    pub fn insert(&mut self, color: Color)
        requires
            old(self).wf(),
        ensures
            final(self).wf(),
            forall|c: Color| #[trigger] final(self).has(c) <==> (old(self).has(c) || c == color),
    {
        let ghost a = self.0;
        self.0 = self.0 | (1u8 << color.bit());
        proof {
            lemma_bits_small(a, 0, color_bit(color));
            assert forall|c: Color| #[trigger] ColorSet(a | (1u8 << color_bit(color))).has(c) <==> (ColorSet(a).has(c)
                || c == color) by {
                lemma_bits(a, 0, color_bit(color), color_bit(c));
            }
        }
    }

    /// Removes a color.
    pub fn remove(&mut self, color: Color)
        requires
            old(self).wf(),
        ensures
            final(self).wf(),
            forall|c: Color| #[trigger] final(self).has(c) <==> (old(self).has(c) && c != color),
    {
        let ghost a = self.0;
        self.0 = self.0 & !(1u8 << color.bit());
        proof {
            lemma_bits_small(a, 0, color_bit(color));
            assert forall|c: Color| #[trigger] ColorSet(a & !(1u8 << color_bit(color))).has(c) <==> (ColorSet(a).has(c)
                && c != color) by {
                lemma_bits(a, 0, color_bit(color), color_bit(c));
            }
        }
    }

    /// The colors of either set.
    pub fn union(self, other: ColorSet) -> (r: ColorSet)
        requires
            self.wf(),
            other.wf(),
        ensures
            r.wf(),
            forall|c: Color| #[trigger] r.has(c) <==> (self.has(c) || other.has(c)),
    {
        let r = ColorSet(self.0 | other.0);
        proof {
            lemma_bits_small(self.0, other.0, 0);
            assert forall|c: Color| #[trigger] r.has(c) <==> (self.has(c) || other.has(c)) by {
                lemma_bits(self.0, other.0, 0, color_bit(c));
            }
        }
        r
    }

    /// Whether the set holds no color.
    pub fn is_empty(&self) -> (r: bool)
        requires
            self.wf(),
        ensures
            r == self.spec_is_empty(),
    {
        if self.0 == 0 {
            proof {
                assert forall|c: Color| !#[trigger] self.has(c) by {
                    lemma_bits(0, 0, 0, color_bit(c));
                }
            }
            true
        } else {
            proof {
                let e = ColorSet(0);
                assert forall|c: Color| !#[trigger] e.has(c) by {
                    lemma_bits(0, 0, 0, color_bit(c));
                }
                if self.spec_is_empty() {
                    assert forall|c: Color| #[trigger] self.has(c) == e.has(c) by {}
                    ColorSet::lemma_ext_equal(*self, e);
                }
            }
            false
        }
    }

    /// The colors of the set, in the order of their bits.
    pub fn iter(&self) -> (r: Vec<Color>)
        ensures
            forall|c: Color| #[trigger] r@.contains(c) <==> self.has(c),
            r@.no_duplicates(),
            r@.len() == self.spec_len(),
            forall|a: int, b: int| 0 <= a < b < r@.len() ==> color_bit(#[trigger] r@[a]) < color_bit(#[trigger] r@[b]),
    {
        let all = Color::all();
        let mut r: Vec<Color> = Vec::new();
        let mut i: usize = 0;
        while i < 6
            invariant
                i <= 6,
                all@ == seq![Color::Red, Color::Orange, Color::Yellow, Color::Green, Color::Blue, Color::Purple],
                forall|c: Color| #[trigger] r@.contains(c) <==> (self.has(c) && color_bit(c) < i),
                forall|k: int| 0 <= k < r@.len() ==> color_bit(#[trigger] r@[k]) < i,
                forall|a: int, b: int| 0 <= a < b < r@.len() ==> color_bit(#[trigger] r@[a]) < color_bit(#[trigger] r@[b]),
                r@.no_duplicates(),
                r@.len() == self.len_below(i as int),
            decreases 6 - i,
        {
            let c = all[i];
            assert(color_bit(c) == i);
            if self.contains(c) {
                let ghost old_r = r@;
                r.push(c);
                proof {
                    assert(r@ == old_r.push(c));
                    assert forall|x: Color| #[trigger] r@.contains(x) <==> (self.has(x) && color_bit(x) < i + 1) by {
                        if x == c {
                            assert(r@[r@.len() - 1] == x);
                        } else if r@.contains(x) {
                            let k = choose|k: int| 0 <= k < r@.len() && r@[k] == x;
                            assert(old_r[k] == x);
                            assert(old_r.contains(x));
                        } else if self.has(x) && color_bit(x) < i {
                            assert(old_r.contains(x));
                            let k = choose|k: int| 0 <= k < old_r.len() && old_r[k] == x;
                            assert(r@[k] == x);
                        }
                    }
                }
            }
            i = i + 1;
        }
        proof {
            reveal_with_fuel(ColorSet::len_below, 7);
        }
        r
    }

    /// The number of colors of the set whose bit lies below `i`.
    pub open spec fn len_below(self, i: int) -> nat
        decreases i,
    {
        if i <= 0 {
            0
        } else {
            self.len_below(i - 1) + if self.has(color_of_bit(i - 1)) { 1nat } else { 0nat }
        }
    }

    /// The number of colors in the set.
    pub fn len(&self) -> (r: usize)
        ensures
            r == self.spec_len(),
    {
        self.iter().len()
    }
}

/// The color at a bit position.
pub open spec fn color_of_bit(b: int) -> Color {
    if b == 0 {
        Color::Red
    } else if b == 1 {
        Color::Orange
    } else if b == 2 {
        Color::Yellow
    } else if b == 3 {
        Color::Green
    } else if b == 4 {
        Color::Blue
    } else {
        Color::Purple
    }
}

} // verus!
