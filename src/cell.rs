//! Cells: their static form, their play form with one or two layers, and turning them.

use vstd::prelude::*;

use crate::color::{Color, ColorSet};
use crate::direction::{Direction, Rotation};
use crate::direction_map::{dir_count, lemma_map_rotate_inverse, DirectionMap, DirectionSet};
use crate::grid::GridIndex;

verus! {

broadcast use vstd::array::group_array_axioms;

/// Which layer of an intersection a direction belongs to, if any.
#[derive(Debug, Clone, Copy, PartialEq, Eq, Structural, Default)]
pub enum LayerConnection {
    #[default]
    Disconnected,
    Layer0,
    Layer1,
}

/// The static form of a cell, as a puzzle is stored and generated.
#[derive(Debug, Clone, Copy, PartialEq, Eq, Structural)]
pub enum PuzzleCell {
    Normal { connections: DirectionSet },
    Source { connections: DirectionSet, source: Color },
    Intersection { connections: DirectionMap<LayerConnection> },
}

/// One connected layer of a cell: where it opens, and which colors fill it.
#[derive(Debug, Clone, Copy, PartialEq, Eq, Structural)]
pub struct CellLayer {
    pub connections: DirectionSet,
    pub fill: ColorSet,
}

/// A single layer with an optional source color, or two independent layers.
#[derive(Debug, Clone, Copy)]
pub enum CellData {
    Normal { layer: CellLayer, source: Option<Color> },
    Intersection { layers: [CellLayer; 2] },
}

/// A cell as it is played.
#[derive(Debug, Clone, Copy)]
pub struct Cell {
    pub data: CellData,
}

/// A performed swap: both positions and the rotation each cell received.
#[derive(Debug, Clone, Copy, PartialEq, Eq, Structural)]
pub struct SwapRecord {
    pub a: GridIndex,
    pub b: GridIndex,
    pub a_rotation: Rotation,
    pub b_rotation: Rotation,
}

impl SwapRecord {
    pub fn new(a: GridIndex, b: GridIndex, a_rotation: Rotation, b_rotation: Rotation) -> (r: Self)
        ensures
            r == (SwapRecord { a, b, a_rotation, b_rotation }),
    {
        Self { a, b, a_rotation, b_rotation }
    }
}

/// The layer of an intersection that a direction belongs to.
pub open spec fn is_layer(c: LayerConnection, l: int) -> bool {
    if l == 0 {
        c == LayerConnection::Layer0
    } else {
        c == LayerConnection::Layer1
    }
}

/// The directions of a layer of an intersection.
pub open spec fn layer_dirs(connections: DirectionMap<LayerConnection>, l: int) -> DirectionSet {
    DirectionMap {
        e: is_layer(connections.e, l),
        n: is_layer(connections.n, l),
        w: is_layer(connections.w, l),
        s: is_layer(connections.s, l),
    }
}

/// A layer with the given connections and no fill.
pub open spec fn bare_layer(connections: DirectionSet) -> CellLayer {
    CellLayer { connections, fill: ColorSet::nothing() }
}

impl CellLayer {
    pub open spec fn rotated_by(self, r: Rotation) -> CellLayer {
        CellLayer { connections: self.connections.spec_rotated(r), fill: self.fill }
    }

    pub open spec fn cleared(self) -> CellLayer {
        CellLayer { connections: self.connections, fill: ColorSet::nothing() }
    }
}

impl PuzzleCell {
    pub open spec fn spec_source(self) -> Option<Color> {
        match self {
            PuzzleCell::Source { source, .. } => Some(source),
            _ => None,
        }
    }

    /// The connection sets of the layers the cell will have in play.
    pub open spec fn spec_layers(self) -> Seq<DirectionSet> {
        match self {
            PuzzleCell::Normal { connections } => seq![connections],
            PuzzleCell::Source { connections, .. } => seq![connections],
            PuzzleCell::Intersection { connections } => seq![layer_dirs(connections, 0), layer_dirs(connections, 1)],
        }
    }

    /// The number of connected directions.
    pub open spec fn spec_total_connections(self) -> nat {
        match self {
            PuzzleCell::Normal { connections } => dir_count(connections),
            PuzzleCell::Source { connections, .. } => dir_count(connections),
            PuzzleCell::Intersection { connections } => dir_count(
                connections.spec_map_connected(),
            ),
        }
    }

    /// The source color, if the cell is a source.
    pub fn source(&self) -> (r: Option<Color>)
        ensures
            r == self.spec_source(),
    {
        match self {
            PuzzleCell::Normal { .. } => None,
            PuzzleCell::Source { source, .. } => Some(*source),
            PuzzleCell::Intersection { .. } => None,
        }
    }

    /// The connection sets of the layers the cell will have in play.
    pub fn iter_layers(&self) -> (r: Vec<DirectionSet>)
        ensures
            r@ == self.spec_layers(),
    {
        match self {
            PuzzleCell::Normal { connections } => vec![*connections],
            PuzzleCell::Source { connections, .. } => vec![*connections],
            PuzzleCell::Intersection { connections } => vec![layer_set(connections, 0), layer_set(connections, 1)],
        }
    }

    /// The number of connected directions.
    pub fn total_connections(&self) -> (r: usize)
        ensures
            r == self.spec_total_connections(),
    {
        match self {
            PuzzleCell::Normal { connections } => connections.len(),
            PuzzleCell::Source { connections, .. } => connections.len(),
            PuzzleCell::Intersection { connections } => {
                let set = DirectionMap {
                    e: !is_disconnected(connections.e),
                    n: !is_disconnected(connections.n),
                    w: !is_disconnected(connections.w),
                    s: !is_disconnected(connections.s),
                };
                set.len()
            },
        }
    }
}

impl DirectionMap<LayerConnection> {
    /// The directions that belong to either layer.
    pub open spec fn spec_map_connected(self) -> DirectionSet {
        DirectionMap {
            e: self.e != LayerConnection::Disconnected,
            n: self.n != LayerConnection::Disconnected,
            w: self.w != LayerConnection::Disconnected,
            s: self.s != LayerConnection::Disconnected,
        }
    }
}

fn is_disconnected(c: LayerConnection) -> (r: bool)
    ensures
        r == (c == LayerConnection::Disconnected),
{
    match c {
        LayerConnection::Disconnected => true,
        _ => false,
    }
}

fn is_layer_exec(c: LayerConnection, l: usize) -> (r: bool)
    ensures
        r == is_layer(c, l as int),
{
    match c {
        LayerConnection::Layer0 => l == 0,
        LayerConnection::Layer1 => l != 0,
        LayerConnection::Disconnected => false,
    }
}

/// The directions of a layer of an intersection.
fn layer_set(connections: &DirectionMap<LayerConnection>, l: usize) -> (r: DirectionSet)
    ensures
        r == layer_dirs(*connections, l as int),
{
    DirectionMap {
        e: is_layer_exec(connections.e, l),
        n: is_layer_exec(connections.n, l),
        w: is_layer_exec(connections.w, l),
        s: is_layer_exec(connections.s, l),
    }
}

impl Cell {
    /// The number of layers: one, or two for an intersection.
    pub open spec fn layer_count(self) -> int {
        match self.data {
            CellData::Normal { .. } => 1,
            CellData::Intersection { .. } => 2,
        }
    }

    /// A layer of the cell, if it has one of that index.
    pub open spec fn layer(self, l: int) -> Option<CellLayer> {
        match self.data {
            CellData::Normal { layer, .. } => if l == 0 {
                Some(layer)
            } else {
                None
            },
            CellData::Intersection { layers } => if l == 0 {
                Some(layers@[0])
            } else if l == 1 {
                Some(layers@[1])
            } else {
                None
            },
        }
    }

    pub open spec fn spec_source(self) -> Option<Color> {
        match self.data {
            CellData::Normal { source, .. } => source,
            CellData::Intersection { .. } => None,
        }
    }

    /// The first layer that opens in a direction.
    pub open spec fn layer_for_dir(self, d: Direction) -> Option<int> {
        match self.data {
            CellData::Normal { layer, .. } => if layer.connections.at(d) {
                Some(0)
            } else {
                None
            },
            CellData::Intersection { layers } => if layers@[0].connections.at(d) {
                Some(0)
            } else if layers@[1].connections.at(d) {
                Some(1)
            } else {
                None
            },
        }
    }

    /// Every fill is a well-formed color set, and the layers of an
    /// intersection never open in the same direction.
    pub open spec fn wf(self) -> bool {
        match self.data {
            CellData::Normal { layer, .. } => layer.fill.wf(),
            CellData::Intersection { layers } => {
                &&& layers@[0].fill.wf()
                &&& layers@[1].fill.wf()
                &&& forall|d: Direction| !(#[trigger] layers@[0].connections.at(d) && layers@[1].connections.at(d))
            },
        }
    }

    /// The same cell with every layer turned by a rotation.
    pub open spec fn spec_rotate(self, r: Rotation) -> Cell {
        match self.data {
            CellData::Normal { layer, source } => Cell {
                data: CellData::Normal { layer: layer.rotated_by(r), source },
            },
            CellData::Intersection { layers } => Cell {
                data: CellData::Intersection { layers: [layers@[0].rotated_by(r), layers@[1].rotated_by(r)] },
            },
        }
    }

    /// The same cell with every fill emptied.
    pub open spec fn cleared(self) -> Cell {
        match self.data {
            CellData::Normal { layer, source } => Cell { data: CellData::Normal { layer: layer.cleared(), source } },
            CellData::Intersection { layers } => Cell {
                data: CellData::Intersection { layers: [layers@[0].cleared(), layers@[1].cleared()] },
            },
        }
    }

    /// The same cell with the fill of one layer replaced.
    pub open spec fn with_fill(self, l: int, fill: ColorSet) -> Cell {
        match self.data {
            CellData::Normal { layer, source } => Cell {
                data: CellData::Normal { layer: CellLayer { connections: layer.connections, fill }, source },
            },
            CellData::Intersection { layers } => if l == 0 {
                Cell {
                    data: CellData::Intersection {
                        layers: [CellLayer { connections: layers@[0].connections, fill }, layers@[1]],
                    },
                }
            } else {
                Cell {
                    data: CellData::Intersection {
                        layers: [layers@[0], CellLayer { connections: layers@[1].connections, fill }],
                    },
                }
            },
        }
    }

    /// The same cell with one layer replaced.
    pub open spec fn with_layer(self, l: int, layer: CellLayer) -> Cell {
        match self.data {
            CellData::Normal { source, .. } => Cell { data: CellData::Normal { layer, source } },
            CellData::Intersection { layers } => Cell {
                data: CellData::Intersection { layers: vstd::array::spec_array_update(layers, l, layer) },
            },
        }
    }

    /// Whether any layer is filled with a color.
    pub open spec fn has_color(self, c: Color) -> bool {
        match self.data {
            CellData::Normal { layer, .. } => layer.fill.has(c),
            CellData::Intersection { layers } => layers@[0].fill.has(c) || layers@[1].fill.has(c),
        }
    }

    /// The turn a cell receives when it is moved: counterclockwise or clockwise
    /// when exactly one of the two rotating colors fills it, none otherwise.
    pub open spec fn spec_rotation_for_fill(self) -> Rotation {
        let ccw = self.has_color(Color::CCW);
        let cw = self.has_color(Color::CW);
        if ccw && !cw {
            Rotation::CounterClockwise
        } else if cw && !ccw {
            Rotation::Clockwise
        } else {
            Rotation::Identity
        }
    }

    /// Two cells may trade places when either holds the swap color and
    /// neither holds the stop color.
    pub open spec fn spec_can_swap(a: Cell, b: Cell) -> bool {
        (a.has_color(Color::SWAP) || b.has_color(Color::SWAP)) && !a.has_color(Color::STOP) && !b.has_color(
            Color::STOP,
        )
    }

    /// The play form of a static cell: a source starts filled with its color.
    pub open spec fn spec_new(p: PuzzleCell) -> Cell {
        match p {
            PuzzleCell::Normal { connections } => Cell {
                data: CellData::Normal { layer: bare_layer(connections), source: None },
            },
            PuzzleCell::Source { connections, source } => Cell {
                data: CellData::Normal {
                    layer: CellLayer { connections, fill: ColorSet::spec_singleton(source) },
                    source: Some(source),
                },
            },
            PuzzleCell::Intersection { connections } => Cell {
                data: CellData::Intersection {
                    layers: [bare_layer(layer_dirs(connections, 0)), bare_layer(layer_dirs(connections, 1))],
                },
            },
        }
    }

    /// The static form of a cell: the layer of each direction, the second layer winning.
    pub open spec fn spec_to_puzzle_cell(self) -> PuzzleCell {
        match self.data {
            CellData::Normal { layer, source } => match source {
                Some(s) => PuzzleCell::Source { connections: layer.connections, source: s },
                None => PuzzleCell::Normal { connections: layer.connections },
            },
            CellData::Intersection { layers } => PuzzleCell::Intersection {
                connections: DirectionMap {
                    e: layer_of_dir(layers@[0].connections.e, layers@[1].connections.e),
                    n: layer_of_dir(layers@[0].connections.n, layers@[1].connections.n),
                    w: layer_of_dir(layers@[0].connections.w, layers@[1].connections.w),
                    s: layer_of_dir(layers@[0].connections.s, layers@[1].connections.s),
                },
            },
        }
    }

    /// The number of connected directions over all layers.
    pub open spec fn spec_total_connections(self) -> nat {
        match self.data {
            CellData::Normal { layer, .. } => dir_count(layer.connections),
            CellData::Intersection { layers } => dir_count(layers@[0].connections) + dir_count(
                layers@[1].connections,
            ),
        }
    }

    /// The play form of a static cell.
    pub fn new(puzzle_cell: PuzzleCell) -> (r: Self)
        ensures
            r == Cell::spec_new(puzzle_cell),
            r.wf(),
    {
        proof {
            ColorSet::lemma_nothing();
        }
        let data = match puzzle_cell {
            PuzzleCell::Normal { connections } => CellData::Normal {
                layer: CellLayer { connections, fill: ColorSet::empty() },
                source: None,
            },
            PuzzleCell::Source { connections, source } => CellData::Normal {
                layer: CellLayer { connections, fill: ColorSet::singleton(source) },
                source: Some(source),
            },
            PuzzleCell::Intersection { connections } => CellData::Intersection {
                layers: [
                    CellLayer { connections: layer_set(&connections, 0), fill: ColorSet::empty() },
                    CellLayer { connections: layer_set(&connections, 1), fill: ColorSet::empty() },
                ],
            },
        };
        let r = Self { data };
        proof {
            if let PuzzleCell::Intersection { connections } = puzzle_cell {
                assert(r.data matches CellData::Intersection { layers } && layers@ =~= seq![
                    bare_layer(layer_dirs(connections, 0)),
                    bare_layer(layer_dirs(connections, 1)),
                ]);
            }
        }
        r
    }

    /// The static form of the cell.
    pub fn to_puzzle_cell(self) -> (r: PuzzleCell)
        ensures
            r == self.spec_to_puzzle_cell(),
    {
        match self.data {
            CellData::Normal { layer, source } => match source {
                Some(source) => PuzzleCell::Source { connections: layer.connections, source },
                None => PuzzleCell::Normal { connections: layer.connections },
            },
            CellData::Intersection { layers } => {
                let a = layers[0].connections;
                let b = layers[1].connections;
                let connections = DirectionMap {
                    e: layer_of_dir_exec(a.e, b.e),
                    n: layer_of_dir_exec(a.n, b.n),
                    w: layer_of_dir_exec(a.w, b.w),
                    s: layer_of_dir_exec(a.s, b.s),
                };
                PuzzleCell::Intersection { connections }
            },
        }
    }

    /// The number of connected directions over all layers.
    pub fn total_connections(&self) -> (r: usize)
        ensures
            r == self.spec_total_connections(),
    {
        match self.data {
            CellData::Normal { layer, .. } => layer.connections.len(),
            CellData::Intersection { layers } => layers[0].connections.len() + layers[1].connections.len(),
        }
    }

    /// The number of layers.
    pub fn get_layer_count(&self) -> (r: usize)
        ensures
            r == self.layer_count(),
    {
        match &self.data {
            CellData::Normal { .. } => 1,
            CellData::Intersection { .. } => 2,
        }
    }

    /// A layer of the cell by index.
    pub fn get_layer(&self, layer_idx: usize) -> (r: Option<&CellLayer>)
        ensures
            r.is_some() == self.layer(layer_idx as int).is_some(),
            r.is_some() ==> self.layer(layer_idx as int) == Some(*r.unwrap()),
    {
        match &self.data {
            CellData::Normal { layer, .. } => if layer_idx == 0 {
                Some(layer)
            } else {
                None
            },
            CellData::Intersection { layers } => if layer_idx == 0 {
                Some(&layers[0])
            } else if layer_idx == 1 {
                Some(&layers[1])
            } else {
                None
            },
        }
    }

    /// A layer of the cell by index, to change in place.
    pub fn get_layer_mut(&mut self, layer_idx: usize) -> (r: Option<&mut CellLayer>)
        ensures
            r.is_some() == old(self).layer(layer_idx as int).is_some(),
            r.is_some() ==> *r.unwrap() == old(self).layer(layer_idx as int).unwrap(),
            r.is_none() ==> *final(self) == *old(self),
            match r {
                Some(x) => *final(self) == old(self).with_layer(layer_idx as int, *final(x)),
                None => true,
            },
    {
        match &mut self.data {
            CellData::Normal { layer, .. } => if layer_idx == 0 {
                Some(layer)
            } else {
                None
            },
            CellData::Intersection { layers } => if layer_idx == 0 {
                Some(&mut layers[0])
            } else if layer_idx == 1 {
                Some(&mut layers[1])
            } else {
                None
            },
        }
    }

    /// The layers of the cell, in order.
    pub fn iter_layers(&self) -> (r: Vec<CellLayer>)
        ensures
            r@.len() == self.layer_count(),
            forall|l: int| 0 <= l < r@.len() ==> self.layer(l) == Some(#[trigger] r@[l]),
    {
        match &self.data {
            CellData::Normal { layer, .. } => vec![*layer],
            CellData::Intersection { layers } => vec![layers[0], layers[1]],
        }
    }

    /// The first layer that opens in a direction, with its index.
    pub fn get_layer_for_direction(&self, direction: Direction) -> (r: Option<(usize, CellLayer)>)
        ensures
            r.is_some() == self.layer_for_dir(direction).is_some(),
            r.is_some() ==> r.unwrap().0 == self.layer_for_dir(direction).unwrap() && self.layer(
                r.unwrap().0 as int,
            ) == Some(r.unwrap().1),
    {
        match &self.data {
            CellData::Normal { layer, .. } => {
                if layer.connections.contains(direction) {
                    Some((0, *layer))
                } else {
                    None
                }
            },
            CellData::Intersection { layers } => {
                if layers[0].connections.contains(direction) {
                    Some((0, layers[0]))
                } else if layers[1].connections.contains(direction) {
                    Some((1, layers[1]))
                } else {
                    None
                }
            },
        }
    }

    /// The source color, if the cell is a source.
    pub fn source(&self) -> (r: Option<Color>)
        ensures
            r == self.spec_source(),
    {
        match self.data {
            CellData::Normal { source, .. } => source,
            CellData::Intersection { .. } => None,
        }
    }

    /// Turns every layer of the cell by a rotation.
    pub fn rotate(&mut self, rotation: Rotation)
        ensures
            *final(self) == old(self).spec_rotate(rotation),
    {
        match self.data {
            CellData::Normal { layer, source } => {
                let l = CellLayer { connections: layer.connections.rotated(rotation), fill: layer.fill };
                self.data = CellData::Normal { layer: l, source };
            },
            CellData::Intersection { layers } => {
                let l0 = CellLayer { connections: layers[0].connections.rotated(rotation), fill: layers[0].fill };
                let l1 = CellLayer { connections: layers[1].connections.rotated(rotation), fill: layers[1].fill };
                self.data = CellData::Intersection { layers: [l0, l1] };
            },
        }
    }

    /// The turn the cell receives when it is moved, from its current fill.
    pub fn rotation_for_fill(&self) -> (r: Rotation)
        ensures
            r == self.spec_rotation_for_fill(),
    {
        let ccw = self.has_color_in_any_layer(Color::CCW);
        let cw = self.has_color_in_any_layer(Color::CW);
        match (ccw, cw) {
            (true, true) => Rotation::Identity,
            (true, false) => Rotation::CounterClockwise,
            (false, true) => Rotation::Clockwise,
            (false, false) => Rotation::Identity,
        }
    }

    /// Turns the cell by the rotation its fill calls for, and returns that rotation.
    pub fn rotate_by_fill(&mut self) -> (r: Rotation)
        ensures
            r == old(self).spec_rotation_for_fill(),
            *final(self) == old(self).spec_rotate(r),
    {
        let rotation = self.rotation_for_fill();
        self.rotate(rotation);
        rotation
    }

    /// Replaces the fill of one layer.
    pub fn set_fill(&mut self, layer_idx: usize, fill: ColorSet)
        requires
            old(self).layer(layer_idx as int).is_some(),
        ensures
            *final(self) == old(self).with_fill(layer_idx as int, fill),
    {
        match self.data {
            CellData::Normal { layer, source } => {
                self.data = CellData::Normal { layer: CellLayer { connections: layer.connections, fill }, source };
            },
            CellData::Intersection { layers } => {
                if layer_idx == 0 {
                    let l0 = CellLayer { connections: layers[0].connections, fill };
                    self.data = CellData::Intersection { layers: [l0, layers[1]] };
                } else {
                    let l1 = CellLayer { connections: layers[1].connections, fill };
                    self.data = CellData::Intersection { layers: [layers[0], l1] };
                }
            },
        }
    }

    /// Adds a color to the fill of the first layer if `in0`, and of the second if `in1`.
    pub fn add_color(&mut self, color: Color, in0: bool, in1: bool)
        requires
            old(self).wf(),
        ensures
            final(self).wf(),
            final(self).cleared() == old(self).cleared(),
            final(self).spec_source() == old(self).spec_source(),
            forall|l: int| #[trigger] final(self).layer(l).is_some() == old(self).layer(l).is_some(),
            forall|l: int, x: Color|
                old(self).layer(l).is_some() ==> (#[trigger] final(self).layer(l).unwrap().fill.has(x) <==> (old(
                    self,
                ).layer(l).unwrap().fill.has(x) || (x == color && (if l == 0 {
                    in0
                } else {
                    in1
                })))),
    {
        proof {
            broadcast use vstd::array::group_array_axioms;
        }
        match self.data {
            CellData::Normal { layer, source } => {
                let mut fill = layer.fill;
                if in0 {
                    fill.insert(color);
                }
                self.data = CellData::Normal { layer: CellLayer { connections: layer.connections, fill }, source };
            },
            CellData::Intersection { layers } => {
                let mut f0 = layers[0].fill;
                let mut f1 = layers[1].fill;
                if in0 {
                    f0.insert(color);
                }
                if in1 {
                    f1.insert(color);
                }
                let l0 = CellLayer { connections: layers[0].connections, fill: f0 };
                let l1 = CellLayer { connections: layers[1].connections, fill: f1 };
                self.data = CellData::Intersection { layers: [l0, l1] };
                proof {
                    let a = self.cleared();
                    let b = old(self).cleared();
                    if let CellData::Intersection { layers: la } = a.data {
                        if let CellData::Intersection { layers: lb } = b.data {
                            assert(la@ =~= lb@);
                        }
                    }
                }
            },
        }
    }

    /// Empties the fill of every layer.
    pub fn clear_fill(&mut self)
        requires
            old(self).wf(),
        ensures
            *final(self) == old(self).cleared(),
            final(self).wf(),
    {
        proof {
            ColorSet::lemma_nothing();
        }
        match self.data {
            CellData::Normal { layer, source } => {
                self.data = CellData::Normal {
                    layer: CellLayer { connections: layer.connections, fill: ColorSet::empty() },
                    source,
                };
            },
            CellData::Intersection { layers } => {
                let l0 = CellLayer { connections: layers[0].connections, fill: ColorSet::empty() };
                let l1 = CellLayer { connections: layers[1].connections, fill: ColorSet::empty() };
                self.data = CellData::Intersection { layers: [l0, l1] };
            },
        }
    }

    /// Whether any layer is filled with a color.
    pub fn has_color_in_any_layer(&self, color: Color) -> (r: bool)
        ensures
            r == self.has_color(color),
    {
        match self.data {
            CellData::Normal { layer, .. } => layer.fill.contains(color),
            CellData::Intersection { layers } => layers[0].fill.contains(color) || layers[1].fill.contains(color),
        }
    }

    /// Whether two cells may trade places.
    pub fn can_swap(first_cell: &Cell, second_cell: &Cell) -> (r: bool)
        ensures
            r == Cell::spec_can_swap(*first_cell, *second_cell),
    {
        (first_cell.has_color_in_any_layer(Color::SWAP) || second_cell.has_color_in_any_layer(Color::SWAP))
            && !first_cell.has_color_in_any_layer(Color::STOP) && !second_cell.has_color_in_any_layer(Color::STOP)
    }
}

/// The layer of an intersection that a direction goes to, from whether each layer opens there.
pub open spec fn layer_of_dir(in0: bool, in1: bool) -> LayerConnection {
    if in1 {
        LayerConnection::Layer1
    } else if in0 {
        LayerConnection::Layer0
    } else {
        LayerConnection::Disconnected
    }
}

fn layer_of_dir_exec(in0: bool, in1: bool) -> (r: LayerConnection)
    ensures
        r == layer_of_dir(in0, in1),
{
    if in1 {
        LayerConnection::Layer1
    } else if in0 {
        LayerConnection::Layer0
    } else {
        LayerConnection::Disconnected
    }
}

/// Turning keeps a cell well formed, and commutes with emptying its fills.
pub proof fn lemma_cell_rotate_wf(c: Cell, r: Rotation)
    requires
        c.wf(),
    ensures
        c.spec_rotate(r).wf(),
        c.spec_rotate(r).cleared() == c.cleared().spec_rotate(r),
        c.spec_rotate(r).spec_source() == c.spec_source(),
        c.spec_rotate(r).layer_count() == c.layer_count(),
{
    broadcast use vstd::array::group_array_axioms;

    match c.data {
        CellData::Normal { .. } => {},
        CellData::Intersection { layers } => {
            let l0 = layers@[0].connections;
            let l1 = layers@[1].connections;
            assert(!(l0.at(Direction::E) && l1.at(Direction::E)));
            assert(!(l0.at(Direction::N) && l1.at(Direction::N)));
            assert(!(l0.at(Direction::W) && l1.at(Direction::W)));
            assert(!(l0.at(Direction::S) && l1.at(Direction::S)));
            let rc = c.spec_rotate(r);
            if let CellData::Intersection { layers: rl } = rc.data {
                assert forall|d: Direction| !(#[trigger] rl@[0].connections.at(d) && rl@[1].connections.at(d)) by {}
            }
            let x = c.spec_rotate(r).cleared();
            let y = c.cleared().spec_rotate(r);
            if let CellData::Intersection { layers: xl } = x.data {
                if let CellData::Intersection { layers: yl } = y.data {
                    assert(xl@ =~= yl@);
                }
            }
        },
    }
}

/// Two well-formed cells with the same structure and the same fills are equal.
pub proof fn lemma_cell_equal(a: Cell, b: Cell)
    requires
        a.wf(),
        b.wf(),
        a.cleared() == b.cleared(),
        forall|l: int, x: Color|
            a.layer(l) is Some ==> (#[trigger] a.layer(l).unwrap().fill.has(x) <==> b.layer(l).unwrap().fill.has(x)),
    ensures
        a == b,
{
    broadcast use vstd::array::group_array_axioms;

    match a.data {
        CellData::Normal { layer, source } => {
            assert(b.data is Normal);
            if let CellData::Normal { layer: lb, source: sb } = b.data {
                assert(a.cleared().data matches CellData::Normal { layer: ca, source: sa } && ca.connections
                    == layer.connections && sa == source);
                assert(b.cleared().data matches CellData::Normal { layer: cb, source: sbb } && cb.connections
                    == lb.connections && sbb == sb);
                assert forall|x: Color| #[trigger] layer.fill.has(x) == lb.fill.has(x) by {
                    assert(a.layer(0).unwrap().fill.has(x) <==> b.layer(0).unwrap().fill.has(x));
                }
                ColorSet::lemma_ext_equal(layer.fill, lb.fill);
                assert(layer == lb);
                assert(a.data == b.data);
            }
        },
        CellData::Intersection { layers } => {
            assert(b.data is Intersection);
            if let CellData::Intersection { layers: lb } = b.data {
                assert(a.cleared().data matches CellData::Intersection { layers: ca } && ca@[0].connections
                    == layers@[0].connections && ca@[1].connections == layers@[1].connections);
                assert(b.cleared().data matches CellData::Intersection { layers: cb } && cb@[0].connections
                    == lb@[0].connections && cb@[1].connections == lb@[1].connections);
                assert forall|x: Color| #[trigger] layers@[0].fill.has(x) == lb@[0].fill.has(x) by {
                    assert(a.layer(0).unwrap().fill.has(x) <==> b.layer(0).unwrap().fill.has(x));
                }
                assert forall|x: Color| #[trigger] layers@[1].fill.has(x) == lb@[1].fill.has(x) by {
                    assert(a.layer(1).unwrap().fill.has(x) <==> b.layer(1).unwrap().fill.has(x));
                }
                ColorSet::lemma_ext_equal(layers@[0].fill, lb@[0].fill);
                ColorSet::lemma_ext_equal(layers@[1].fill, lb@[1].fill);
                assert(layers@[0] == lb@[0]);
                assert(layers@[1] == lb@[1]);
                assert(layers@ =~= lb@);
                assert(layers == lb);
                assert(a.data == b.data);
            }
        },
    }
}

/// Storing a well-formed cell in its static form and playing it again keeps its structure.
pub proof fn lemma_puzzle_cell_round_trip(c: Cell)
    requires
        c.wf(),
    ensures
        Cell::spec_new(c.spec_to_puzzle_cell()).cleared() == c.cleared(),
{
    broadcast use vstd::array::group_array_axioms;

    match c.data {
        CellData::Normal { layer, source } => {
            match source {
                Some(s) => {},
                None => {},
            }
        },
        CellData::Intersection { layers } => {
            let l0 = layers@[0].connections;
            let l1 = layers@[1].connections;
            assert(!(l0.at(Direction::E) && l1.at(Direction::E)));
            assert(!(l0.at(Direction::N) && l1.at(Direction::N)));
            assert(!(l0.at(Direction::W) && l1.at(Direction::W)));
            assert(!(l0.at(Direction::S) && l1.at(Direction::S)));
            let p = c.spec_to_puzzle_cell();
            if let PuzzleCell::Intersection { connections } = p {
                assert(layer_dirs(connections, 0) == l0);
                assert(layer_dirs(connections, 1) == l1);
            }
            let x = Cell::spec_new(p).cleared();
            let y = c.cleared();
            if let CellData::Intersection { layers: xl } = x.data {
                if let CellData::Intersection { layers: yl } = y.data {
                    assert(xl@ =~= yl@);
                }
            }
        },
    }
}

/// Turning a cell and then turning it back gives the same cell.
pub proof fn lemma_cell_rotate_inverse(c: Cell, r: Rotation)
    ensures
        c.spec_rotate(r).spec_rotate(r.spec_inverse()) == c,
{
    match c.data {
        CellData::Normal { layer, .. } => {
            lemma_map_rotate_inverse(layer.connections, r);
            assert(layer.rotated_by(r).rotated_by(r.spec_inverse()) == layer);
        },
        CellData::Intersection { layers } => {
            lemma_map_rotate_inverse(layers@[0].connections, r);
            lemma_map_rotate_inverse(layers@[1].connections, r);
            assert(layers@[0].rotated_by(r).rotated_by(r.spec_inverse()) == layers@[0]);
            assert(layers@[1].rotated_by(r).rotated_by(r.spec_inverse()) == layers@[1]);
            let back = c.spec_rotate(r).spec_rotate(r.spec_inverse());
            broadcast use vstd::array::group_array_axioms;

            if let CellData::Intersection { layers: l2 } = back.data {
                assert(l2@ =~= layers@);
                assert(l2 == layers);
            }
        },
    }
}

} // verus!
