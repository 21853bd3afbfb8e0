//! Generating solved layouts: knocking out positions and growing regions.

use vstd::prelude::*;

use crate::cell::{Cell, PuzzleCell};
use crate::color::Color;
use crate::connections::connect_groups;
use crate::game_grid::{cells_wf, is_filled, lemma_filled_unique, play_cells, skeleton, solve_state, GridSolveState};
use crate::generator::{GeneratorSettings, SourceSettings};
use crate::grid::{
    count_present, lemma_count_present_full, lemma_count_present_update, lemma_index_of_lin, lemma_lin_bounds,
    lemma_lin_index_of, lin, Grid,
    GridIndex, GridSize,
};
use crate::random::{chance, random_below, CHANCE_SCALE};

verus! {

/// A position while regions are allocated: in one region, or where two cross.
#[derive(Debug, Clone, Copy)]
pub enum GeneratorCell {
    SingleGroup(Color),
    Intersection(Color, Color),
}

/// Why one attempt at generating a layout failed.
#[derive(Debug, Clone, Copy, PartialEq, Eq, Structural)]
pub enum GeneratorFailure {
    RandomFailure,
    ResultNotSolved,
    CannotAddSource,
}

/// The layout, played and filled, is solved.
pub open spec fn solved_layout(grid: Grid<PuzzleCell>) -> bool {
    exists|played: Grid<Cell>|
        #![trigger skeleton(played@), solve_state(played.spec_size(), played@)]
        played.game_wf() && played.spec_size() == grid.spec_size() && skeleton(played@) == skeleton(
            play_cells(grid@),
        ) && is_filled(played.spec_size(), played@) && solve_state(played.spec_size(), played@)
            == GridSolveState::Solved
}

/// Draws layouts until one is solved, for at most `u64::MAX` attempts.
pub fn generate_solution(generator_settings: &GeneratorSettings) -> (r: Option<Grid<PuzzleCell>>)
    requires
        generator_settings.size.area() <= usize::MAX,
    ensures
        r is Some ==> r.unwrap().wf() && r.unwrap().spec_size() == generator_settings.size && solved_layout(
            r.unwrap(),
        ),
{
    let mut attempts: u64 = u64::MAX;
    while attempts > 0
        invariant
            generator_settings.size.area() <= usize::MAX,
        decreases attempts,
    {
        attempts = attempts - 1;
        match try_generate_solution(generator_settings) {
            Ok(solution) => {
                return Some(solution);
            },
            Err(_) => {},
        }
    }
    None
}

/// One attempt: knock out positions, allocate regions, wire them, and check
/// that the result is solved.
fn try_generate_solution(generator_settings: &GeneratorSettings) -> (r: Result<Grid<PuzzleCell>, GeneratorFailure>)
    requires
        generator_settings.size.area() <= usize::MAX,
    ensures
        r is Ok ==> r.unwrap().wf() && r.unwrap().spec_size() == generator_settings.size && solved_layout(
            r.unwrap(),
        ),
{
    let grid = create_grid_with_knockouts(generator_settings);
    let grid = allocate_groups(&grid, generator_settings)?;
    let grid = connect_groups(&grid, generator_settings)?;
    verify(grid)
}

/// The full grid of the settings' size with up to `missing` positions knocked
/// out: positions are considered in random order, each knocked out by the
/// settings' chance, until the cap is reached or none is left to consider.
pub fn create_grid_with_knockouts(generator_settings: &GeneratorSettings) -> (r: Grid<bool>)
    requires
        generator_settings.size.area() <= usize::MAX,
    ensures
        r.wf(),
        r.spec_size() == generator_settings.size,
        forall|i: GridIndex| #[trigger] r.at(i) is Some ==> r.at(i) == Some(true),
        r.count() + generator_settings.missing >= generator_settings.size.area(),
{
    let size = generator_settings.size;
    let mut grid: Grid<bool> = Grid::with_size(size);
    let n = size.width * size.height;
    let mut li: usize = 0;
    while li < n
        invariant
            grid.wf(),
            grid.spec_size() == size,
            n == grid@.len(),
            li <= n,
            forall|j: int| 0 <= j < li ==> #[trigger] grid@[j] == Some(true),
        decreases n - li,
    {
        grid.set_at_linear(li, Some(true));
        li = li + 1;
    }
    proof {
        lemma_count_present_full(grid@);
    }
    let mut candidates = size.indices();
    proof {
        assert forall|k: int| 0 <= k < candidates@.len() implies size.spec_contains(#[trigger] candidates@[k]) by {
            lemma_lin_index_of(size, k);
        }
    }
    let mut knockouts: usize = 0;
    while knockouts < generator_settings.missing && candidates.len() > 0
        invariant
            grid.wf(),
            grid.spec_size() == size,
            n == grid@.len(),
            knockouts <= generator_settings.missing,
            forall|k: int| 0 <= k < candidates@.len() ==> size.spec_contains(#[trigger] candidates@[k]),
            forall|j: int| 0 <= j < n && (#[trigger] grid@[j]).is_some() ==> grid@[j] == Some(true),
            count_present(grid@) + knockouts >= n,
        decreases candidates@.len(),
    {
        let considered = candidates.swap_remove(random_below(candidates.len()));
        proof {
            assert forall|k: int| 0 <= k < candidates@.len() implies size.spec_contains(#[trigger] candidates@[k]) by {}
        }
        if chance(generator_settings.missing_chance) {
            knockouts = knockouts + 1;
            let ghost before = grid@;
            let _ = grid.remove(considered);
            proof {
                lemma_lin_bounds(size, considered);
                lemma_count_present_update(before, lin(size, considered), None);
            }
        }
    }
    proof {
        assert forall|i: GridIndex| #[trigger] grid.at(i) is Some implies grid.at(i) == Some(true) by {
            if size.spec_contains(i) {
                lemma_lin_bounds(size, i);
            }
        }
    }
    grid
}

/// How far a region is from what it needs; larger is worse.
#[derive(Debug, Clone, Copy, PartialEq, Eq, Structural)]
enum GroupStatus {
    Happy,
    MaxIntersections,
    TooSmall,
}

/// How bad a status is: happy, out of room, too small.
spec fn spec_rank(s: GroupStatus) -> u8 {
    match s {
        GroupStatus::Happy => 0,
        GroupStatus::MaxIntersections => 1,
        GroupStatus::TooSmall => 2,
    }
}

/// The status of a region.
spec fn spec_status(g: Group) -> GroupStatus {
    if g.present@.len() < required_size(g.color) {
        GroupStatus::TooSmall
    } else if g.intersections >= g.present@.len() {
        GroupStatus::MaxIntersections
    } else {
        GroupStatus::Happy
    }
}

fn status_rank(s: GroupStatus) -> (r: u8)
    ensures
        r < 3,
        r == 0 <==> s == GroupStatus::Happy,
        r == spec_rank(s),
{
    match s {
        GroupStatus::Happy => 0,
        GroupStatus::MaxIntersections => 1,
        GroupStatus::TooSmall => 2,
    }
}

/// A region being grown: its positions, the positions next to it, and how many
/// of its positions it shares with another region.
struct Group {
    color: Color,
    present: Vec<GridIndex>,
    boundary: Vec<GridIndex>,
    intersections: usize,
}

impl Group {
    fn new(color: Color) -> (r: Self)
        ensures
            r.color == color,
            r.present@.len() == 0,
            r.boundary@.len() == 0,
            r.intersections == 0,
    {
        Group { color, present: Vec::new(), boundary: Vec::new(), intersections: 0 }
    }

    /// Too small below its color's minimum size (two positions for the colors
    /// with a rule, one otherwise), out of room once every position is shared.
    fn status(&self) -> (r: GroupStatus)
        ensures
            r == GroupStatus::TooSmall <==> (self.present@.len() < required_size(self.color)),
            r == spec_status(*self),
    {
        let required: usize = match self.color {
            Color::Red | Color::Orange | Color::Yellow | Color::Purple => 2,
            Color::Green | Color::Blue => 1,
        };
        if required > self.present.len() {
            GroupStatus::TooSmall
        } else if self.intersections >= self.present.len() {
            GroupStatus::MaxIntersections
        } else {
            GroupStatus::Happy
        }
    }
}

/// The smallest size a region of a color may have.
pub open spec fn required_size(c: Color) -> nat {
    match c {
        Color::Green | Color::Blue => 1,
        _ => 2,
    }
}

/// Whether a list of positions holds a position.
fn contains_position(v: &Vec<GridIndex>, x: GridIndex) -> (r: bool)
    ensures
        r == v@.contains(x),
{
    let mut i: usize = 0;
    while i < v.len()
        invariant
            i <= v@.len(),
            forall|k: int| 0 <= k < i ==> v@[k] != x,
        decreases v@.len() - i,
    {
        if v[i] == x {
            return true;
        }
        i = i + 1;
    }
    false
}

/// Removes every occurrence of a position from a list.
fn remove_position(v: &mut Vec<GridIndex>, x: GridIndex)
    ensures
        !final(v)@.contains(x),
        forall|k: int| 0 <= k < final(v)@.len() ==> old(v)@.contains(#[trigger] final(v)@[k]),
{
    let mut kept: Vec<GridIndex> = Vec::new();
    let mut i: usize = 0;
    while i < v.len()
        invariant
            i <= v@.len(),
            !kept@.contains(x),
            forall|k: int| 0 <= k < kept@.len() ==> v@.contains(#[trigger] kept@[k]),
        decreases v@.len() - i,
    {
        if v[i] != x {
            let ghost old_kept = kept@;
            kept.push(v[i]);
            proof {
                assert(v@.contains(v@[i as int]));
                assert forall|k: int| 0 <= k < kept@.len() implies v@.contains(#[trigger] kept@[k]) by {
                    if k < old_kept.len() {
                        assert(kept@[k] == old_kept[k]);
                    }
                }
            }
        }
        i = i + 1;
    }
    *v = kept;
}

/// The colors of the regions: the swap color always, the stop and rotating
/// colors as the settings ask, and further colors until the minimum number of
/// regions is met, then each by the extra-region chance.
fn get_group_colors(generator_settings: &GeneratorSettings) -> (r: Vec<Color>)
    ensures
        r@.len() >= 1,
        r@[0] == Color::Purple,
{
    let mut groups: Vec<Color> = vec![Color::Purple];
    let mut possible_groups: Vec<Color> = vec![Color::Blue, Color::Green];
    match generator_settings.stop_sources {
        SourceSettings::Never => {},
        SourceSettings::Maybe => possible_groups.push(Color::STOP),
        SourceSettings::Definitely => groups.push(Color::STOP),
    }
    match generator_settings.rotator_sources {
        SourceSettings::Never => {},
        SourceSettings::Maybe => {
            possible_groups.push(Color::CCW);
            possible_groups.push(Color::CW);
        },
        SourceSettings::Definitely => {
            if chance(CHANCE_SCALE / 2) {
                groups.push(Color::CCW);
                possible_groups.push(Color::CW);
            } else {
                groups.push(Color::CW);
                possible_groups.push(Color::CCW);
            }
        },
    }
    while possible_groups.len() > 0
        invariant
            groups@.len() >= 1,
            groups@[0] == Color::Purple,
        decreases possible_groups@.len(),
    {
        let mut add = groups.len() <= generator_settings.min_regions;
        if !add {
            add = chance(generator_settings.extra_region_chance);
        }
        if !add {
            break;
        }
        let picked = possible_groups.swap_remove(random_below(possible_groups.len()));
        groups.push(picked);
    }
    groups
}

/// The position of a random region among those in the worst state.
fn pick_worst(groups: &Vec<Group>) -> (r: usize)
    requires
        groups@.len() > 0,
    ensures
        r < groups@.len(),
        forall|g: int| 0 <= g < groups@.len() ==> spec_rank(spec_status(#[trigger] groups@[g])) <= spec_rank(
            spec_status(groups@[r as int]),
        ),
{
    let mut worst: u8 = 0;
    let mut i: usize = 0;
    while i < groups.len()
        invariant
            i <= groups@.len(),
            forall|g: int| 0 <= g < i ==> spec_rank(spec_status(#[trigger] groups@[g])) <= worst,
            i > 0 ==> exists|g: int| 0 <= g < i && spec_rank(spec_status(#[trigger] groups@[g])) == worst,
            i == 0 ==> worst == 0,
        decreases groups@.len() - i,
    {
        let rank = status_rank(groups[i].status());
        if rank > worst || i == 0 {
            if rank > worst {
                worst = rank;
            } else {
                worst = rank;
            }
        }
        assert(spec_rank(spec_status(groups@[i as int])) <= worst);
        i = i + 1;
    }
    let mut tied: Vec<usize> = Vec::new();
    i = 0;
    while i < groups.len()
        invariant
            i <= groups@.len(),
            forall|g: int| 0 <= g < groups@.len() ==> spec_rank(spec_status(#[trigger] groups@[g])) <= worst,
            exists|g: int| 0 <= g < groups@.len() && spec_rank(spec_status(#[trigger] groups@[g])) == worst,
            forall|k: int| 0 <= k < tied@.len() ==> #[trigger] tied@[k] < groups@.len() && spec_rank(
                spec_status(groups@[tied@[k] as int]),
            ) == worst,
            forall|g: int| 0 <= g < i && spec_rank(spec_status(#[trigger] groups@[g])) == worst ==> tied@.contains(
                g as usize,
            ),
        decreases groups@.len() - i,
    {
        let ghost old_t = tied@;
        if status_rank(groups[i].status()) == worst {
            tied.push(i);
        }
        proof {
            assert forall|g: int| 0 <= g < i + 1 && spec_rank(spec_status(#[trigger] groups@[g])) == worst implies tied@.contains(
                g as usize,
            ) by {
                if g < i {
                    let w = choose|w: int| 0 <= w < old_t.len() && old_t[w] == g as usize;
                    assert(tied@[w] == old_t[w]);
                } else {
                    assert(tied@[tied@.len() - 1] == i);
                }
            }
        }
        i = i + 1;
    }
    proof {
        let g = choose|g: int| 0 <= g < groups@.len() && spec_rank(spec_status(#[trigger] groups@[g])) == worst;
        assert(tied@.contains(g as usize));
    }
    tied[random_below(tied.len())]
}

/// Whether a position holds a color, alone or as one of two crossing regions.
pub open spec fn holds(c: Option<GeneratorCell>, color: Color) -> bool {
    match c {
        Some(GeneratorCell::SingleGroup(x)) => x == color,
        Some(GeneratorCell::Intersection(x, y)) => x == color || y == color,
        None => false,
    }
}

/// An intersection joins two different colors.
pub open spec fn crossing_ok(c: Option<GeneratorCell>) -> bool {
    match c {
        Some(GeneratorCell::Intersection(x, y)) => x != y,
        _ => true,
    }
}

/// A region of color `color` may claim a position holding `c`: an empty one,
/// or one of another single color while intersections are left.
pub open spec fn claimable(c: Option<GeneratorCell>, color: Color, left: usize) -> bool {
    match c {
        None => true,
        Some(GeneratorCell::SingleGroup(x)) => x != color && left > 0,
        Some(GeneratorCell::Intersection(_, _)) => false,
    }
}

/// Whether a position is an intersection.
pub open spec fn crossing(c: Option<GeneratorCell>) -> nat {
    match c {
        Some(GeneratorCell::Intersection(_, _)) => 1,
        _ => 0,
    }
}

/// The number of intersections.
pub open spec fn count_crossings(s: Seq<Option<GeneratorCell>>) -> nat
    decreases s.len(),
{
    if s.len() == 0 {
        0
    } else {
        count_crossings(s.drop_last()) + crossing(s.last())
    }
}

proof fn lemma_count_crossings_update(s: Seq<Option<GeneratorCell>>, i: int, v: Option<GeneratorCell>)
    requires
        0 <= i < s.len(),
    ensures
        count_crossings(s.update(i, v)) + crossing(s[i]) == count_crossings(s) + crossing(v),
    decreases s.len(),
{
    let u = s.update(i, v);
    if i == s.len() - 1 {
        assert(u.drop_last() == s.drop_last());
    } else {
        assert(u.drop_last() == s.drop_last().update(i, v));
        lemma_count_crossings_update(s.drop_last(), i, v);
    }
}

proof fn lemma_count_crossings_empty(s: Seq<Option<GeneratorCell>>)
    requires
        forall|i: int| 0 <= i < s.len() ==> (#[trigger] s[i]).is_none(),
    ensures
        count_crossings(s) == 0,
    decreases s.len(),
{
    if s.len() > 0 {
        lemma_count_crossings_empty(s.drop_last());
    }
}

/// Two distinct positions hold the swap color.
pub open spec fn purple_twice(g: Grid<GeneratorCell>) -> bool {
    exists|p: GridIndex, q: GridIndex| p != q && #[trigger] holds(g.at(p), Color::Purple) && #[trigger] holds(g.at(q), Color::Purple)
}

/// What holds while regions grow: every position taken and every boundary
/// position is present in `grid`; each region's positions are distinct and hold
/// its color; intersections join two different colors and are counted against
/// the budget; and the swap-colored region is still growing or holds two
/// positions.
spec fn alloc_inv(
    grid: Grid<bool>,
    group_grid: Grid<GeneratorCell>,
    groups: Seq<Group>,
    intersections_left: usize,
    max_intersections: usize,
) -> bool {
    &&& group_grid.wf()
    &&& group_grid.spec_size() == grid.spec_size()
    &&& forall|i: GridIndex| #[trigger] group_grid.at(i) is Some ==> grid.at(i) is Some
    &&& forall|gi: int, k: int|
        0 <= gi < groups.len() && 0 <= k < groups[gi].boundary@.len() ==> grid.at(
            #[trigger] groups[gi].boundary@[k],
        ) is Some
    &&& forall|gi: int| 0 <= gi < groups.len() ==> (#[trigger] groups[gi]).present@.no_duplicates()
    &&& forall|gi: int, k: int|
        0 <= gi < groups.len() && 0 <= k < groups[gi].present@.len() ==> holds(
            group_grid.at(#[trigger] groups[gi].present@[k]),
            groups[gi].color,
        )
    &&& forall|i: GridIndex|
        crossing_ok(#[trigger] group_grid.at(i))
    &&& count_crossings(group_grid@) + intersections_left <= max_intersections
    &&& (exists|gi: int| 0 <= gi < groups.len() && (#[trigger] groups[gi]).color == Color::Purple) || purple_twice(
        group_grid,
    )
}

/// Assigns every present position to a region: the region in the worst state
/// claims a random position next to it, which may make an intersection of two
/// regions while intersections are left and the chance allows. Fails when a
/// region that has not reached its minimum runs out of room. The growth is
/// bounded by a budget of six steps per position and per intersection; an
/// attempt that runs out of it fails like any other.
pub fn allocate_groups(grid: &Grid<bool>, generator_settings: &GeneratorSettings) -> (r: Result<
    Grid<GeneratorCell>,
    GeneratorFailure,
>)
    requires
        grid.wf(),
    ensures
        r is Ok ==> r.unwrap().wf() && r.unwrap().spec_size() == grid.spec_size(),
        r is Ok ==> forall|i: GridIndex| #[trigger] r.unwrap().at(i) is Some ==> grid.at(i) is Some,
        r is Ok ==> (forall|i: GridIndex| #[trigger] grid.at(i) is Some ==> r.unwrap().at(i) is Some) || purple_twice(
            r.unwrap(),
        ),
        r is Ok ==> forall|i: GridIndex|
            crossing_ok(#[trigger] r.unwrap().at(i)),
        r is Ok ==> count_crossings(r.unwrap()@) <= generator_settings.max_intersections,
        r is Err ==> r == Err::<Grid<GeneratorCell>, GeneratorFailure>(GeneratorFailure::RandomFailure),
{
    let colors = get_group_colors(generator_settings);
    let mut groups: Vec<Group> = Vec::new();
    let mut ci: usize = 0;
    while ci < colors.len()
        invariant
            ci <= colors@.len(),
            colors@.len() >= 1,
            colors@[0] == Color::Purple,
            groups@.len() == ci,
            forall|gi: int| 0 <= gi < ci ==> (#[trigger] groups@[gi]).color == colors@[gi] && groups@[gi].present@.len()
                == 0 && groups@[gi].boundary@.len() == 0,
        decreases colors@.len() - ci,
    {
        groups.push(Group::new(colors[ci]));
        ci = ci + 1;
    }
    let size = grid.size();
    let mut group_grid: Grid<GeneratorCell> = Grid::with_size(size);
    let mut intersections_left = generator_settings.max_intersections;
    let present = grid.indicies();
    proof {
        lemma_count_crossings_empty(group_grid@);
        assert(groups@[0].color == Color::Purple);
        assert forall|i: GridIndex| #[trigger] group_grid.at(i) is Some implies grid.at(i) is Some by {
            if size.spec_contains(i) {
                lemma_lin_bounds(size, i);
            }
        }
        assert forall|i: GridIndex|
            crossing_ok(#[trigger] group_grid.at(i)) by {
            if size.spec_contains(i) {
                lemma_lin_bounds(size, i);
            }
        }
    }
    let steps = grid.len().saturating_add(intersections_left);
    let mut budget: usize = steps.saturating_add(steps).saturating_add(steps).saturating_add(steps).saturating_add(
        steps,
    ).saturating_add(steps).saturating_add(8);
    while budget > 0
        invariant
            grid.wf(),
            size == grid.spec_size(),
            forall|k: int| 0 <= k < present@.len() ==> grid.at(#[trigger] present@[k]).is_some(),
            forall|i: GridIndex| #[trigger] grid.at(i).is_some() ==> present@.contains(i),
            alloc_inv(*grid, group_grid, groups@, intersections_left, generator_settings.max_intersections),
        decreases budget,
    {
        budget = budget - 1;
        let mut free: Vec<GridIndex> = Vec::new();
        let mut k: usize = 0;
        while k < present.len()
            invariant
                group_grid.wf(),
                k <= present@.len(),
                forall|j: int| 0 <= j < free@.len() ==> group_grid.at(#[trigger] free@[j]) is None && grid.at(free@[j]) is Some,
                forall|j: int| 0 <= j < k ==> group_grid.at(#[trigger] present@[j]) is Some || free@.contains(present@[j]),
                forall|kk: int| 0 <= kk < present@.len() ==> grid.at(#[trigger] present@[kk]).is_some(),
            decreases present@.len() - k,
        {
            let ghost old_free = free@;
            if !group_grid.contains(present[k]) {
                free.push(present[k]);
                proof {
                    assert(free@[free@.len() - 1] == present@[k as int]);
                }
            }
            proof {
                assert forall|j: int| 0 <= j < k + 1 implies group_grid.at(#[trigger] present@[j]) is Some || free@.contains(
                    present@[j],
                ) by {
                    if j < k && !(group_grid.at(present@[j]) is Some) {
                        let w = choose|w: int| 0 <= w < old_free.len() && old_free[w] == present@[j];
                        assert(free@[w] == present@[j]);
                    }
                }
            }
            k = k + 1;
        }
        if free.len() == 0 {
            proof {
                assert forall|i: GridIndex| #[trigger] grid.at(i) is Some implies group_grid.at(i) is Some by {
                    let j = choose|j: int| 0 <= j < present@.len() && present@[j] == i;
                    assert(group_grid.at(present@[j]) is Some || free@.contains(present@[j]));
                }
                reveal_alloc(*grid, group_grid, groups@, intersections_left, generator_settings.max_intersections);
            }
            return Ok(group_grid);
        }
        if groups.len() == 0 {
            proof {
                reveal_alloc(*grid, group_grid, groups@, intersections_left, generator_settings.max_intersections);
            }
            return Ok(group_grid);
        }
        let gi = pick_worst(&groups);
        let color = groups[gi].color;
        let mut chosen: Option<GridIndex> = None;
        let mut rejected: Option<GridIndex> = None;
        if groups[gi].present.len() == 0 {
            chosen = Some(free[random_below(free.len())]);
        } else if groups[gi].boundary.len() > 0 {
            let boundary_len = groups[gi].boundary.len();
            let position = groups[gi].boundary[random_below(boundary_len)];
            let add = match group_grid.get(position) {
                Some(GeneratorCell::SingleGroup(in_group)) => {
                    *in_group != color && intersections_left > 0 && chance(generator_settings.intersection_chance)
                },
                Some(GeneratorCell::Intersection(_, _)) => false,
                None => true,
            };
            if add {
                chosen = Some(position);
            } else {
                rejected = Some(position);
            }
        } else {
            if status_rank(groups[gi].status()) != 0 {
                return Err(GeneratorFailure::RandomFailure);
            }
            let ghost before = groups@;
            let dropped = groups.remove(gi);
            proof {
                lemma_drop_group(*grid, group_grid, before, gi as int, intersections_left, generator_settings.max_intersections);
                assert(groups@ == before.remove(gi as int));
            }
        }
        match chosen {
            Some(position) => {
                proof {
                    assert(grid.at(position) is Some);
                    assert(claimable(group_grid.at(position), color, intersections_left));
                }
                claim(grid, &mut group_grid, &mut groups, gi, position, &mut intersections_left, Ghost(generator_settings.max_intersections));
            },
            None => {
                match rejected {
                    Some(position) => {
                        let ghost before = groups@;
                        let mut group = groups.remove(gi);
                        remove_position(&mut group.boundary, position);
                        groups.insert(gi, group);
                        proof {
                            lemma_replace_group(*grid, group_grid, before, gi as int, groups@, intersections_left, generator_settings.max_intersections);
                        }
                    },
                    None => {},
                }
            },
        }
    }
    Err(GeneratorFailure::RandomFailure)
}

/// What `alloc_inv` says, for use outside the loop.
proof fn reveal_alloc(
    grid: Grid<bool>,
    group_grid: Grid<GeneratorCell>,
    groups: Seq<Group>,
    intersections_left: usize,
    max_intersections: usize,
)
    requires
        alloc_inv(grid, group_grid, groups, intersections_left, max_intersections),
        groups.len() == 0 ==> true,
    ensures
        group_grid.wf(),
        forall|i: GridIndex| #[trigger] group_grid.at(i) is Some ==> grid.at(i) is Some,
        forall|i: GridIndex| crossing_ok(#[trigger] group_grid.at(i)),
        count_crossings(group_grid@) <= max_intersections,
        groups.len() == 0 ==> purple_twice(group_grid),
{
}

/// Dropping a region that reached its minimum keeps the invariant.
proof fn lemma_drop_group(
    grid: Grid<bool>,
    group_grid: Grid<GeneratorCell>,
    groups: Seq<Group>,
    gi: int,
    intersections_left: usize,
    max_intersections: usize,
)
    requires
        alloc_inv(grid, group_grid, groups, intersections_left, max_intersections),
        0 <= gi < groups.len(),
        groups[gi].present@.len() >= required_size(groups[gi].color),
    ensures
        alloc_inv(grid, group_grid, groups.remove(gi), intersections_left, max_intersections),
{
    let rest = groups.remove(gi);
    assert forall|g: int| 0 <= g < rest.len() implies #[trigger] rest[g] == groups[if g < gi { g } else { g + 1 }] by {}
    if groups[gi].color == Color::Purple && !purple_twice(group_grid) {
        let p = groups[gi].present@;
        assert(holds(group_grid.at(p[0]), Color::Purple));
        assert(holds(group_grid.at(p[1]), Color::Purple));
        assert(p[0] != p[1]);
        assert(purple_twice(group_grid));
    }
    if !purple_twice(group_grid) {
        let w = choose|w: int| 0 <= w < groups.len() && (#[trigger] groups[w]).color == Color::Purple;
        assert(w != gi);
        let w2 = if w < gi { w } else { w - 1 };
        assert(rest[w2] == groups[w]);
    }
    assert forall|g: int, k: int| 0 <= g < rest.len() && 0 <= k < rest[g].boundary@.len() implies grid.at(
        #[trigger] rest[g].boundary@[k],
    ) is Some by {
        let o = if g < gi { g } else { g + 1 };
        assert(rest[g] == groups[o]);
    }
    assert forall|g: int| 0 <= g < rest.len() implies (#[trigger] rest[g]).present@.no_duplicates() by {
        let o = if g < gi { g } else { g + 1 };
        assert(rest[g] == groups[o]);
    }
    assert forall|g: int, k: int| 0 <= g < rest.len() && 0 <= k < rest[g].present@.len() implies holds(
        group_grid.at(#[trigger] rest[g].present@[k]),
        rest[g].color,
    ) by {
        let o = if g < gi { g } else { g + 1 };
        assert(rest[g] == groups[o]);
    }
}

/// Replacing a region by one with fewer boundary positions keeps the invariant.
proof fn lemma_replace_group(
    grid: Grid<bool>,
    group_grid: Grid<GeneratorCell>,
    groups: Seq<Group>,
    gi: int,
    after: Seq<Group>,
    intersections_left: usize,
    max_intersections: usize,
)
    requires
        alloc_inv(grid, group_grid, groups, intersections_left, max_intersections),
        0 <= gi < groups.len(),
        after.len() == groups.len(),
        forall|g: int| 0 <= g < groups.len() && g != gi ==> #[trigger] after[g] == groups[g],
        after[gi].color == groups[gi].color,
        after[gi].present@ == groups[gi].present@,
        forall|k: int| 0 <= k < after[gi].boundary@.len() ==> groups[gi].boundary@.contains(#[trigger] after[gi].boundary@[k]),
    ensures
        alloc_inv(grid, group_grid, after, intersections_left, max_intersections),
{
    assert forall|g: int, k: int| 0 <= g < after.len() && 0 <= k < after[g].boundary@.len() implies grid.at(
        #[trigger] after[g].boundary@[k],
    ) is Some by {
        if g == gi {
            let w = choose|w: int| 0 <= w < groups[gi].boundary@.len() && groups[gi].boundary@[w] == after[g].boundary@[k];
        } else {
            assert(after[g] == groups[g]);
        }
    }
    assert forall|g: int| 0 <= g < after.len() implies (#[trigger] after[g]).present@.no_duplicates() by {
        if g != gi {
            assert(after[g] == groups[g]);
        }
    }
    assert forall|g: int, k: int| 0 <= g < after.len() && 0 <= k < after[g].present@.len() implies holds(
        group_grid.at(#[trigger] after[g].present@[k]),
        after[g].color,
    ) by {
        if g != gi {
            assert(after[g] == groups[g]);
        } else {
            assert(after[g].present@[k] == groups[g].present@[k]);
        }
    }
    if !purple_twice(group_grid) {
        let w = choose|w: int| 0 <= w < groups.len() && (#[trigger] groups[w]).color == Color::Purple;
        assert(after[w].color == Color::Purple);
    }
}

/// The region `gi` claims a position: it joins the region, leaves its
/// boundary, and its neighbors join the boundary; the position holds the
/// region's color alone, or, where another region's color was, an intersection
/// of both, which uses one intersection of the budget.
fn claim(
    grid: &Grid<bool>,
    group_grid: &mut Grid<GeneratorCell>,
    groups: &mut Vec<Group>,
    gi: usize,
    position: GridIndex,
    intersections_left: &mut usize,
    max_intersections: Ghost<usize>,
)
    requires
        grid.wf(),
        alloc_inv(*grid, *old(group_grid), old(groups)@, *old(intersections_left), max_intersections@),
        gi < old(groups)@.len(),
        grid.at(position) is Some,
        claimable(old(group_grid).at(position), old(groups)@[gi as int].color, *old(intersections_left)),
    ensures
        alloc_inv(*grid, *final(group_grid), final(groups)@, *final(intersections_left), max_intersections@),
        final(groups)@.len() == old(groups)@.len(),
        final(group_grid).at(position) == claimed(old(group_grid).at(position), old(groups)@[gi as int].color),
        forall|i: GridIndex| i != position ==> #[trigger] final(group_grid).at(i) == old(group_grid).at(i),
        old(group_grid).at(position) is None ==> *final(intersections_left) == *old(intersections_left),
        old(group_grid).at(position) is Some ==> *final(intersections_left) + 1 == *old(intersections_left),
        final(groups)@[gi as int].present@.contains(position),
{
    let ghost g0 = *group_grid;
    let ghost gs0 = groups@;
    let size = group_grid.size();
    proof {
        lemma_lin_bounds(size, position);
    }
    let mut group = groups.remove(gi);
    assert(group == gs0[gi as int]);
    assert(group.present@.no_duplicates());
    let color = group.color;
    let existing = match group_grid.get(position) {
        Some(cell) => Some(*cell),
        None => None,
    };
    let mut other_color: Option<Color> = None;
    match existing {
        Some(GeneratorCell::SingleGroup(intersect)) => {
            *intersections_left = *intersections_left - 1;
            let _ = group_grid.insert(position, GeneratorCell::Intersection(intersect, color));
            proof {
                lemma_count_crossings_update(g0@, lin(size, position), Some(GeneratorCell::Intersection(intersect, color)));
            }
            if group.intersections < usize::MAX {
                group.intersections = group.intersections + 1;
            }
            other_color = Some(intersect);
        },
        Some(GeneratorCell::Intersection(_, _)) => {},
        None => {
            let _ = group_grid.insert(position, GeneratorCell::SingleGroup(color));
            proof {
                lemma_count_crossings_update(g0@, lin(size, position), Some(GeneratorCell::SingleGroup(color)));
            }
        },
    }
    let ghost g1 = *group_grid;
    proof {
        assert forall|i: GridIndex| i != position implies #[trigger] g1.at(i) == g0.at(i) by {
            if size.spec_contains(i) {
                lemma_index_of_lin(size, i);
                lemma_index_of_lin(size, position);
                lemma_lin_bounds(size, i);
            }
        }
        assert forall|i: GridIndex, c: Color| #[trigger] holds(g0.at(i), c) implies holds(g1.at(i), c) by {
            if size.spec_contains(i) {
                lemma_lin_bounds(size, i);
                lemma_index_of_lin(size, i);
                lemma_index_of_lin(size, position);
            }
        }
        assert(holds(g1.at(position), color));
    }
    let ghost op = group.present@;
    if !contains_position(&group.present, position) {
        group.present.push(position);
        proof {
            assert(group.present@[group.present@.len() - 1] == position);
            assert forall|a: int, b: int| 0 <= a < b < group.present@.len() implies group.present@[a] != group.present@[b] by {
                if b == op.len() {
                    assert(op.contains(op[a]));
                } else {
                    assert(group.present@[a] == op[a] && group.present@[b] == op[b]);
                }
            }
        }
    }
    assert(group.present@.contains(position));
    remove_position(&mut group.boundary, position);
    proof {
        assert(group.boundary@.len() >= 0);
        assert forall|j: int| 0 <= j < group.boundary@.len() implies grid.at(#[trigger] group.boundary@[j]) is Some
            || gs0[gi as int].boundary@.contains(group.boundary@[j]) by {}
    }
    let neighbors = grid.iter_neighbors(position);
    let ghost gp = group.present@;
    let ghost gc = group.color;
    let mut k: usize = 0;
    while k < neighbors.len()
        invariant
            group.present@ == gp,
            group.color == gc,
            grid.wf(),
            k <= neighbors@.len(),
            forall|j: int| 0 <= j < neighbors@.len() ==> grid.at((#[trigger] neighbors@[j]).0) == Some(neighbors@[j].2),
            forall|j: int| 0 <= j < group.boundary@.len() ==> grid.at(#[trigger] group.boundary@[j]) is Some
                || gs0[gi as int].boundary@.contains(group.boundary@[j]),
        decreases neighbors@.len() - k,
    {
        let (p, _, _) = neighbors[k];
        if !contains_position(&group.boundary, p) {
            let ghost ob = group.boundary@;
            group.boundary.push(p);
            proof {
                assert forall|j: int| 0 <= j < group.boundary@.len() implies grid.at(#[trigger] group.boundary@[j]) is Some
                    || gs0[gi as int].boundary@.contains(group.boundary@[j]) by {
                    if j < ob.len() {
                        assert(group.boundary@[j] == ob[j]);
                    }
                }
            }
        }
        k = k + 1;
    }
    let ghost mid = groups@;
    let mut g: usize = 0;
    while g < groups.len()
        invariant
            groups@.len() == mid.len(),
            g <= groups@.len(),
            forall|h: int| 0 <= h < groups@.len() ==> (#[trigger] groups@[h]).color == mid[h].color
                && groups@[h].present@ == mid[h].present@ && groups@[h].boundary@ == mid[h].boundary@,
        decreases groups@.len() - g,
    {
        if Some(groups[g].color) == other_color {
            let ghost b = groups@;
            let mut other = groups.remove(g);
            if other.intersections < usize::MAX {
                other.intersections = other.intersections + 1;
            }
            groups.insert(g, other);
            proof {
                assert forall|h: int| 0 <= h < groups@.len() implies (#[trigger] groups@[h]).color == mid[h].color
                    && groups@[h].present@ == mid[h].present@ && groups@[h].boundary@ == mid[h].boundary@ by {
                    if h != g {
                        assert(groups@[h] == b[h]);
                    }
                }
            }
            break;
        }
        g = g + 1;
    }
    let ghost gnew = group;
    groups.insert(gi, group);
    proof {
        let fin = groups@;
        assert(fin.len() == gs0.len());
        assert forall|h: int| 0 <= h < fin.len() && h != gi implies (#[trigger] fin[h]).color == gs0[h].color
            && fin[h].present@ == gs0[h].present@ && fin[h].boundary@ == gs0[h].boundary@ by {
            let m = if h < gi { h } else { h - 1 };
            assert(fin[h] == groups@[h]);
            assert(gs0.remove(gi as int)[m] == gs0[h]);
        }
        assert(fin[gi as int] == gnew);
        assert(gnew.present@.contains(position));
        lemma_claim_inv(*grid, g0, g1, gs0, fin, gi as int, position, max_intersections@);
    }
}

/// What a position holds once a region of `color` claims it.
pub open spec fn claimed(c: Option<GeneratorCell>, color: Color) -> Option<GeneratorCell> {
    match c {
        None => Some(GeneratorCell::SingleGroup(color)),
        Some(GeneratorCell::SingleGroup(x)) => Some(GeneratorCell::Intersection(x, color)),
        other => other,
    }
}

/// After a claim, the invariant holds again.
proof fn lemma_claim_inv(
    grid: Grid<bool>,
    g0: Grid<GeneratorCell>,
    g1: Grid<GeneratorCell>,
    gs0: Seq<Group>,
    fin: Seq<Group>,
    gi: int,
    position: GridIndex,
    max_intersections: usize,
)
    requires
        0 <= gi < gs0.len(),
        fin.len() == gs0.len(),
        g1.wf(),
        g1.spec_size() == g0.spec_size(),
        g0.spec_size() == grid.spec_size(),
        grid.at(position) is Some,
        forall|i: GridIndex| #[trigger] g0.at(i) is Some ==> grid.at(i) is Some,
        forall|i: GridIndex| i != position ==> #[trigger] g1.at(i) == g0.at(i),
        g1.at(position) is Some,
        forall|i: GridIndex, c: Color| #[trigger] holds(g0.at(i), c) ==> holds(g1.at(i), c),
        holds(g1.at(position), gs0[gi].color),
        forall|h: int| 0 <= h < fin.len() && h != gi ==> (#[trigger] fin[h]).color == gs0[h].color
            && fin[h].present@ == gs0[h].present@ && fin[h].boundary@ == gs0[h].boundary@,
        fin[gi].color == gs0[gi].color,
        fin[gi].present@.no_duplicates(),
        forall|k: int| 0 <= k < fin[gi].present@.len() ==> gs0[gi].present@.contains(#[trigger] fin[gi].present@[k])
            || fin[gi].present@[k] == position,
        forall|j: int| 0 <= j < fin[gi].boundary@.len() ==> grid.at(#[trigger] fin[gi].boundary@[j]) is Some
            || gs0[gi].boundary@.contains(fin[gi].boundary@[j]),
        forall|gg: int| 0 <= gg < gs0.len() ==> (#[trigger] gs0[gg]).present@.no_duplicates(),
        forall|gg: int, k: int|
            0 <= gg < gs0.len() && 0 <= k < gs0[gg].boundary@.len() ==> grid.at(#[trigger] gs0[gg].boundary@[k]) is Some,
        forall|gg: int, k: int|
            0 <= gg < gs0.len() && 0 <= k < gs0[gg].present@.len() ==> holds(
                g0.at(#[trigger] gs0[gg].present@[k]),
                gs0[gg].color,
            ),
        (exists|w: int| 0 <= w < gs0.len() && (#[trigger] gs0[w]).color == Color::Purple) || purple_twice(g0),
        forall|i: GridIndex| crossing_ok(#[trigger] g1.at(i)),
    ensures
        forall|i: GridIndex| #[trigger] g1.at(i) is Some ==> grid.at(i) is Some,
        forall|gg: int, k: int|
            0 <= gg < fin.len() && 0 <= k < fin[gg].boundary@.len() ==> grid.at(#[trigger] fin[gg].boundary@[k]) is Some,
        forall|gg: int| 0 <= gg < fin.len() ==> (#[trigger] fin[gg]).present@.no_duplicates(),
        forall|gg: int, k: int|
            0 <= gg < fin.len() && 0 <= k < fin[gg].present@.len() ==> holds(
                g1.at(#[trigger] fin[gg].present@[k]),
                fin[gg].color,
            ),
        (exists|w: int| 0 <= w < fin.len() && (#[trigger] fin[w]).color == Color::Purple) || purple_twice(g1),
{
    assert forall|i: GridIndex| #[trigger] g1.at(i) is Some implies grid.at(i) is Some by {
        if i != position {
            assert(g1.at(i) == g0.at(i));
        }
    }
    assert forall|gg: int, k: int|
        0 <= gg < fin.len() && 0 <= k < fin[gg].boundary@.len() implies grid.at(#[trigger] fin[gg].boundary@[k]) is Some by {
        if gg == gi {
            if !(grid.at(fin[gg].boundary@[k]) is Some) {
                let w = choose|w: int| 0 <= w < gs0[gi].boundary@.len() && gs0[gi].boundary@[w] == fin[gg].boundary@[k];
            }
        } else {
            assert(fin[gg].boundary@[k] == gs0[gg].boundary@[k]);
        }
    }
    assert forall|gg: int| 0 <= gg < fin.len() implies (#[trigger] fin[gg]).present@.no_duplicates() by {
        if gg != gi {
            assert(fin[gg].present@ == gs0[gg].present@);
        }
    }
    assert forall|gg: int, k: int|
        0 <= gg < fin.len() && 0 <= k < fin[gg].present@.len() implies holds(
        g1.at(#[trigger] fin[gg].present@[k]),
        fin[gg].color,
    ) by {
        let p = fin[gg].present@[k];
        if gg == gi {
            if p != position {
                let w = choose|w: int| 0 <= w < gs0[gi].present@.len() && gs0[gi].present@[w] == p;
                assert(holds(g0.at(gs0[gi].present@[w]), gs0[gi].color));
            }
        } else {
            assert(p == gs0[gg].present@[k]);
            assert(holds(g0.at(gs0[gg].present@[k]), gs0[gg].color));
        }
    }
    if !purple_twice(g1) {
        if purple_twice(g0) {
            let (p, q) = choose|p: GridIndex, q: GridIndex|
                p != q && #[trigger] holds(g0.at(p), Color::Purple) && #[trigger] holds(g0.at(q), Color::Purple);
            assert(holds(g1.at(p), Color::Purple));
            assert(holds(g1.at(q), Color::Purple));
        }
        let w = choose|w: int| 0 <= w < gs0.len() && (#[trigger] gs0[w]).color == Color::Purple;
        assert(fin[w].color == Color::Purple);
    }
}

/// Accepts a layout only if, played and filled, it is solved.
pub fn verify(grid: Grid<PuzzleCell>) -> (r: Result<Grid<PuzzleCell>, GeneratorFailure>)
    requires
        grid.wf(),
    ensures
        r is Ok <==> solved_layout(grid),
        r is Ok ==> r.unwrap() == grid,
        r is Err ==> r == Err::<Grid<PuzzleCell>, GeneratorFailure>(GeneratorFailure::ResultNotSolved),
{
    let game_grid = Grid::from_puzzle_grid(grid.cloned());
    if game_grid.is_solved() != GridSolveState::Solved {
        proof {
            if solved_layout(grid) {
                let played = choose|played: Grid<Cell>|
                    #![trigger skeleton(played@), solve_state(played.spec_size(), played@)]
                    played.game_wf() && played.spec_size() == grid.spec_size() && skeleton(played@) == skeleton(
                        play_cells(grid@),
                    ) && is_filled(played.spec_size(), played@) && solve_state(played.spec_size(), played@)
                        == GridSolveState::Solved;
                lemma_filled_unique(grid.spec_size(), played@, game_grid@);
            }
        }
        return Err(GeneratorFailure::ResultNotSolved);
    }
    proof {
        assert(skeleton(game_grid@) == skeleton(play_cells(grid@)));
        assert(solve_state(game_grid.spec_size(), game_grid@) == GridSolveState::Solved);
    }
    Ok(grid)
}

} // verus!
