//! Weighted random choices and random generator settings.

use vstd::prelude::*;

use crate::generator::{GeneratorSettings, SourceSettings};
use crate::grid::GridSize;
use crate::random::random_below;

verus! {

/// Entries with weights: an entry is drawn in proportion to its weight.
/// Each entry is stored with the running total of the weights up to it.
pub struct Odds<T> {
    data: Vec<(T, u32)>,
}

impl<T: Copy> Odds<T> {
    /// The entries with their running totals.
    pub closed spec fn entries(&self) -> Seq<(T, u32)> {
        self.data@
    }

    /// The sum of all weights.
    pub open spec fn total(&self) -> u32 {
        if self.entries().len() == 0 {
            0
        } else {
            self.entries().last().1
        }
    }

    /// Running totals never decrease.
    pub open spec fn wf(&self) -> bool {
        forall|i: int, j: int| 0 <= i <= j < self.entries().len() ==> self.entries()[i].1 <= self.entries()[j].1
    }

    /// The entry a draw below the total lands on: the first whose running total
    /// reaches the draw.
    pub open spec fn lands_on(&self, cutoff: u32, i: int) -> bool {
        &&& 0 <= i < self.entries().len()
        &&& self.entries()[i].1 >= cutoff
        &&& forall|j: int| 0 <= j < i ==> self.entries()[j].1 < cutoff
    }

    pub fn new() -> (r: Self)
        ensures
            r.entries().len() == 0,
            r.wf(),
    {
        Self { data: Vec::new() }
    }

    /// Adds an entry with a weight.
    pub fn add(&mut self, entry: T, weight: u32)
        requires
            old(self).wf(),
            old(self).total() + weight <= u32::MAX,
        ensures
            final(self).wf(),
            final(self).entries() == old(self).entries().push((entry, (old(self).total() + weight) as u32)),
            final(self).total() == old(self).total() + weight,
    {
        let cumulative = match self.data.last() {
            Some(x) => x.1,
            None => 0,
        };
        self.data.push((entry, cumulative + weight));
    }

    /// The entry that a number lands on once reduced below the total; `None`
    /// when there is no entry.
    pub fn get(&self, draw: u32) -> (r: Option<T>)
        requires
            self.wf(),
            self.entries().len() > 0 ==> self.total() > 0,
        ensures
            r is None <==> self.entries().len() == 0,
            r is Some ==> exists|i: int| #[trigger] self.lands_on(draw % self.total(), i) && r == Some(self.entries()[i].0),
    {
        if self.data.len() == 0 {
            return None;
        }
        let cumulative = self.data[self.data.len() - 1].1;
        let cutoff = draw % cumulative;
        let mut index: usize = 0;
        while index < self.data.len() && self.data[index].1 < cutoff
            invariant
                index <= self.data@.len(),
                forall|j: int| 0 <= j < index ==> self.data@[j].1 < cutoff,
            decreases self.data@.len() - index,
        {
            index = index + 1;
        }
        if index == self.data.len() {
            assert(self.data@[self.data@.len() - 1].1 < cutoff);
            assert(false);
            return None;
        }
        assert(self.lands_on(cutoff, index as int));
        Some(self.data[index].0)
    }

    /// Draws an entry at random.
    pub fn pick(&self) -> (r: Option<T>)
        requires
            self.wf(),
            self.entries().len() > 0 ==> self.total() > 0,
        ensures
            r is None <==> self.entries().len() == 0,
            r is Some ==> exists|i: int| 0 <= i < self.entries().len() && r == Some(self.entries()[i].0),
    {
        if self.data.len() == 0 {
            return None;
        }
        let total = self.data[self.data.len() - 1].1;
        let draw = random_below(total as usize) as u32;
        self.get(draw)
    }
}

/// The shape of a randomly chosen puzzle.
#[derive(Debug, Clone, Copy)]
pub struct GridData {
    pub size: GridSize,
    pub missing: usize,
    pub swap_count: u8,
}

/// The swap count that suits an area.
pub open spec fn par_swaps(area: int) -> int {
    if area <= 5 {
        2
    } else if area <= 7 {
        3
    } else if area <= 9 {
        4
    } else {
        5
    }
}

/// Draws a grid size with its cap on missing positions, mostly three by three,
/// and a swap count near what suits its area.
pub fn get_random_grid_data() -> (r: GridData)
    ensures
        4 <= r.size.area() <= 25,
        r.missing < r.size.area(),
        par_swaps(r.size.area()) - 1 <= r.swap_count <= par_swaps(r.size.area()) + 2,
{
    let mut size_odds: Odds<(GridSize, usize)> = Odds::new();
    size_odds.add((GridSize::new(2, 3), 1), 3);
    size_odds.add((GridSize::new(1, 4), 0), 6);
    size_odds.add((GridSize::new(2, 4), 1), 9);
    size_odds.add((GridSize::new(3, 3), 2), 15);
    size_odds.add((GridSize::new(3, 4), 2), 8);
    size_odds.add((GridSize::new(4, 4), 3), 4);
    size_odds.add((GridSize::new(5, 5), 4), 2);
    let (size, missing) = match size_odds.pick() {
        Some(x) => x,
        None => (GridSize::new(3, 3), 2),
    };
    proof {
        let e = size_odds.entries();
        assert(e =~= seq![
            ((GridSize { width: 2, height: 3 }, 1usize), 3u32),
            ((GridSize { width: 1, height: 4 }, 0usize), 9u32),
            ((GridSize { width: 2, height: 4 }, 1usize), 18u32),
            ((GridSize { width: 3, height: 3 }, 2usize), 33u32),
            ((GridSize { width: 3, height: 4 }, 2usize), 41u32),
            ((GridSize { width: 4, height: 4 }, 3usize), 45u32),
            ((GridSize { width: 5, height: 5 }, 4usize), 47u32),
        ]);
        assert(e.len() == 7);
        assert forall|i: int| 0 <= i < e.len() implies 4 <= (#[trigger] e[i]).0.0.area() <= 25 && e[i].0.1 < e[i].0.0.area() by {
            if i == 0 {
                assert(e[i].0 == (GridSize { width: 2, height: 3 }, 1usize));
                assert(e[i].0.0.area() == 6) by (nonlinear_arith)
                    requires
                        e[i].0.0.width == 2,
                        e[i].0.0.height == 3,
                ;
            } else if i == 1 {
                assert(e[i].0 == (GridSize { width: 1, height: 4 }, 0usize));
                assert(e[i].0.0.area() == 4) by (nonlinear_arith)
                    requires
                        e[i].0.0.width == 1,
                        e[i].0.0.height == 4,
                ;
            } else if i == 2 {
                assert(e[i].0 == (GridSize { width: 2, height: 4 }, 1usize));
                assert(e[i].0.0.area() == 8) by (nonlinear_arith)
                    requires
                        e[i].0.0.width == 2,
                        e[i].0.0.height == 4,
                ;
            } else if i == 3 {
                assert(e[i].0 == (GridSize { width: 3, height: 3 }, 2usize));
                assert(e[i].0.0.area() == 9) by (nonlinear_arith)
                    requires
                        e[i].0.0.width == 3,
                        e[i].0.0.height == 3,
                ;
            } else if i == 4 {
                assert(e[i].0 == (GridSize { width: 3, height: 4 }, 2usize));
                assert(e[i].0.0.area() == 12) by (nonlinear_arith)
                    requires
                        e[i].0.0.width == 3,
                        e[i].0.0.height == 4,
                ;
            } else if i == 5 {
                assert(e[i].0 == (GridSize { width: 4, height: 4 }, 3usize));
                assert(e[i].0.0.area() == 16) by (nonlinear_arith)
                    requires
                        e[i].0.0.width == 4,
                        e[i].0.0.height == 4,
                ;
            } else {
                assert(e[i].0 == (GridSize { width: 5, height: 5 }, 4usize));
                assert(e[i].0.0.area() == 25) by (nonlinear_arith)
                    requires
                        e[i].0.0.width == 5,
                        e[i].0.0.height == 5,
                ;
            }
        }
    }
    let area = size.width * size.height;
    let par: u8 = if area <= 5 {
        2
    } else if area <= 7 {
        3
    } else if area <= 9 {
        4
    } else {
        5
    };
    let mut swap_odds: Odds<u8> = Odds::new();
    swap_odds.add(par - 1, 10);
    swap_odds.add(par, 150);
    swap_odds.add(par + 1, 30);
    swap_odds.add(par + 2, 3);
    let swap_count = match swap_odds.pick() {
        Some(x) => x,
        None => par,
    };
    proof {
        let e = swap_odds.entries();
        assert(e.len() == 4);
        assert forall|i: int| 0 <= i < e.len() implies par - 1 <= (#[trigger] e[i]).0 <= par + 2 by {
            if i == 0 {
            } else if i == 1 {
            } else if i == 2 {
            } else {
            }
        }
    }
    GridData { size, missing, swap_count }
}

/// Whether the player's own settings are used, and those settings.
#[derive(Debug, Clone, Copy)]
pub struct SettingsConfig {
    pub custom_override: bool,
    pub custom_settings: GeneratorSettings,
}

impl SettingsConfig {
    /// The settings for the next puzzle: the player's own, or random ones.
    pub fn get_current_settings(&self) -> (r: GeneratorSettings)
        ensures
            self.custom_override ==> r == self.custom_settings,
            !self.custom_override ==> random_settings_ok(r),
    {
        if self.custom_override {
            self.custom_settings
        } else {
            get_random_settings()
        }
    }
}

/// What holds of every set of random settings.
pub open spec fn random_settings_ok(r: GeneratorSettings) -> bool {
    &&& 4 <= r.size.area() <= 25
    &&& r.swap_count >= 1
    &&& r.missing < r.size.area()
    &&& r.missing_chance == 100000
    &&& r.stop_sources == SourceSettings::Maybe
    &&& r.rotator_sources == SourceSettings::Maybe
    &&& r.min_regions == 2
    &&& r.extra_region_chance == 200000
    &&& 75000 <= r.extra_source_chance < 200000
    &&& r.intersection_chance < 800000
    &&& r.max_intersections < r.size.area() * 2 / 3
    &&& 740000 < r.knockout_loop_chance <= 990000
    &&& r.check_solution_len == if r.swap_count - 1 < 3 { r.swap_count - 1 } else { 3 }
    &&& r.check_solution_retries == 3
}

/// Random settings of a random size, with stop and rotating sources allowed and
/// chances drawn within fixed ranges; the chance of breaking up loops is drawn
/// as 0.99 less the square of a draw below one half.
pub fn get_random_settings() -> (r: GeneratorSettings)
    ensures
        random_settings_ok(r),
{
    let data = get_random_grid_data();
    let area = data.size.width * data.size.height;
    let limit = area * 2 / 3;
    let spread = random_below(500000);
    proof {
        assert(spread * spread <= 249999000001) by (nonlinear_arith)
            requires
                spread < 500000,
        ;
        vstd::arithmetic::div_mod::lemma_div_is_ordered((spread * spread) as int, 249999000001, 1000000);
    }
    let square = (spread as u64 * spread as u64 / 1000000) as u32;
    assert(square <= 249999);
    GeneratorSettings {
        size: data.size,
        swap_count: data.swap_count,
        missing_chance: 100000,
        missing: data.missing,
        stop_sources: SourceSettings::Maybe,
        rotator_sources: SourceSettings::Maybe,
        min_regions: 2,
        extra_region_chance: 200000,
        extra_source_chance: 75000 + random_below(125000) as u32,
        intersection_chance: random_below(800000) as u32,
        max_intersections: random_below(limit),
        knockout_loop_chance: 990000 - square,
        check_solution_len: if data.swap_count - 1 < 3 {
            (data.swap_count - 1) as usize
        } else {
            3
        },
        check_solution_retries: 3,
    }
}

} // verus!
