//! The Rubik's cube of any size, as a puzzle definition.

use vstd::prelude::*;

use crate::compiler::orbit_states;
use crate::defs::{lemma_i32_clone, move_images, views, DfaEvaluator, Move, PuzzleDefinition};
use crate::reach::{bfs_complete, lemma_bfs_bounded, lemma_distinct_keys_bound};

verus! {

/// An axis of the cube.
#[derive(Debug, Clone, Copy, PartialEq, Eq, Hash, Structural)]
pub enum Axis {
    X,
    Y,
    Z,
}

/// A vector of integer coordinates.
#[derive(Debug, Clone, Copy, PartialEq, Eq, Hash, Structural)]
pub struct Vec3d {
    y: i32,
    z: i32,
    x: i32,
}

/// `-v`, wrapping: `i32::MIN` stays itself.
pub open spec fn wrapping_neg(v: i32) -> i32 {
    if v == i32::MIN {
        i32::MIN
    } else {
        (-v) as i32
    }
}

/// `-v`, wrapping.
fn neg(v: i32) -> (r: i32)
    ensures
        r == wrapping_neg(v),
{
    0i32.wrapping_sub(v)
}

impl Vec3d {
    /// No coordinate is `i32::MIN`, so that each can be negated.
    pub closed spec fn negatable(self) -> bool {
        self.x != i32::MIN && self.y != i32::MIN && self.z != i32::MIN
    }

    /// The coordinate along `axis`.
    pub closed spec fn spec_coord(self, axis: Axis) -> int {
        match axis {
            Axis::X => self.x as int,
            Axis::Y => self.y as int,
            Axis::Z => self.z as int,
        }
    }

    /// The vector turned a quarter turn about `axis` (a negated coordinate
    /// wraps).
    pub closed spec fn spec_rotate(self, axis: Axis, clockwise: bool) -> Vec3d {
        match axis {
            Axis::X => if clockwise {
                Vec3d { x: self.x, y: wrapping_neg(self.z), z: self.y }
            } else {
                Vec3d { x: self.x, y: self.z, z: wrapping_neg(self.y) }
            },
            Axis::Y => if clockwise {
                Vec3d { x: wrapping_neg(self.z), y: self.y, z: self.x }
            } else {
                Vec3d { x: self.z, y: self.y, z: wrapping_neg(self.x) }
            },
            Axis::Z => if clockwise {
                Vec3d { x: wrapping_neg(self.y), y: self.x, z: self.z }
            } else {
                Vec3d { x: self.y, y: wrapping_neg(self.x), z: self.z }
            },
        }
    }

    /// The coordinates `(x, y, z)`.
    pub closed spec fn spec_coords(self) -> (int, int, int) {
        (self.x as int, self.y as int, self.z as int)
    }

    /// The coordinates are those given.
    pub closed spec fn spec_is(self, x: int, y: int, z: int) -> bool {
        self.x == x && self.y == y && self.z == z
    }

    fn coord(&self, axis: Axis) -> (r: i32)
        ensures
            r == self.spec_coord(axis),
    {
        match axis {
            Axis::X => self.x,
            Axis::Y => self.y,
            Axis::Z => self.z,
        }
    }

    /// The vector turned a quarter turn about `axis`; the coordinate it
    /// negates wraps where it is `i32::MIN`.
    fn rotate(self, axis: Axis, clockwise: bool) -> (r: Self)
        ensures
            r == self.spec_rotate(axis, clockwise),
    {
        match axis {
            Axis::X => {
                if clockwise {
                    Self { x: self.x, y: neg(self.z), z: self.y }
                } else {
                    Self { x: self.x, y: self.z, z: neg(self.y) }
                }
            },
            Axis::Y => {
                if clockwise {
                    Self { x: neg(self.z), y: self.y, z: self.x }
                } else {
                    Self { x: self.z, y: self.y, z: neg(self.x) }
                }
            },
            Axis::Z => {
                if clockwise {
                    Self { x: neg(self.y), y: self.x, z: self.z }
                } else {
                    Self { x: self.y, y: neg(self.x), z: self.z }
                }
            },
        }
    }
}

/// Law: where no coordinate is `i32::MIN`, turning a vector one way and
/// then the other gives it back, two quarter turns either way give the same
/// vector, four give it back, and a turn keeps the coordinate along its axis
/// (and no coordinate becomes `i32::MIN`).
pub proof fn lemma_vec_rotate(v: Vec3d, axis: Axis, clockwise: bool)
    requires
        v.negatable(),
    ensures
        v.spec_rotate(axis, clockwise).spec_rotate(axis, !clockwise) == v,
        v.spec_rotate(axis, clockwise).spec_coord(axis) == v.spec_coord(axis),
        v.spec_rotate(axis, clockwise).spec_rotate(axis, clockwise).spec_rotate(axis, clockwise).spec_rotate(
            axis,
            clockwise,
        ) == v,
        v.spec_rotate(axis, clockwise).negatable(),
        v.spec_rotate(axis, true).spec_rotate(axis, true) == v.spec_rotate(axis, false).spec_rotate(
            axis,
            false,
        ),
{
}

/// A piece of the cube: where it is, and which way it faces.
#[derive(Debug, Copy, Eq, Hash)]
pub struct Cubie {
    position: Vec3d,
    orientation: Vec3d,
}

impl Clone for Cubie {
    fn clone(&self) -> (r: Self)
        ensures
            r == *self,
    {
        *self
    }
}

impl PartialEq for Cubie {
    fn eq(&self, other: &Self) -> (r: bool) {
        self.position == other.position && self.orientation == other.orientation
    }
}

impl vstd::std_specs::cmp::PartialEqSpecImpl for Cubie {
    open spec fn obeys_eq_spec() -> bool {
        true
    }

    open spec fn eq_spec(&self, other: &Cubie) -> bool {
        *self == *other
    }
}

impl View for Cubie {
    type V = Cubie;

    open spec fn view(&self) -> Cubie {
        *self
    }
}

impl Cubie {
    /// The cubie turned a quarter turn about `axis`.
    pub closed spec fn spec_rotate(self, axis: Axis, clockwise: bool) -> Cubie {
        Cubie {
            position: self.position.spec_rotate(axis, clockwise),
            orientation: self.orientation.spec_rotate(axis, clockwise),
        }
    }

    /// The coordinate of the cubie's position along `axis`.
    pub closed spec fn spec_coord(self, axis: Axis) -> int {
        self.position.spec_coord(axis)
    }

    /// The cubie is at `(x, y, z)`, facing along the z axis.
    pub closed spec fn spec_is_new(self, x: int, y: int, z: int) -> bool {
        self.position.spec_is(x, y, z) && self.orientation.spec_is(0, 0, 1)
    }

    /// The number of the cubie's coordinates that lie on a face of a cube of
    /// side `size`.
    pub closed spec fn spec_outer_score(self, size: int) -> int {
        let h = cube_half(size);
        (if self.position.x == -h || self.position.x == h { 1int } else { 0 }) + (if self.position.y
            == -h || self.position.y == h {
            1int
        } else {
            0
        }) + (if self.position.z == -h || self.position.z == h {
            1int
        } else {
            0
        })
    }

    /// No coordinate of the cubie is `i32::MIN`, so that every turn of it
    /// can be undone (as for every cubie of a cube that `rubik` makes).
    pub closed spec fn spec_valid(self) -> bool {
        self.position.negatable() && self.orientation.negatable()
    }

    /// The cubie faces along one of the six directions of the axes.
    pub closed spec fn spec_faces_axis(self) -> bool {
        unit_index(self.orientation) >= 0
    }

    /// The coordinates `(x, y, z)` of the cubie's position.
    pub closed spec fn spec_position(self) -> (int, int, int) {
        self.position.spec_coords()
    }

    /// The coordinates `(x, y, z)` of the direction the cubie faces.
    pub closed spec fn spec_orientation(self) -> (int, int, int) {
        self.orientation.spec_coords()
    }

    /// The coordinates of the cubie's position, in the order `(z, y, x)`.
    pub closed spec fn spec_zyx(self) -> (int, int, int) {
        (self.position.z as int, self.position.y as int, self.position.x as int)
    }

    fn new(x: i32, y: i32, z: i32) -> (r: Self)
        ensures
            r.spec_is_new(x as int, y as int, z as int),
    {
        Self { position: Vec3d { x, y, z }, orientation: Vec3d { x: 0, y: 0, z: 1 } }
    }

    fn outer_score(&self, size: usize) -> (r: usize)
        requires
            (size / 2) as i32 != i32::MIN,
        ensures
            r == self.spec_outer_score(size as int),
    {
        let half_size = (size / 2) as i32;
        let coords = [self.position.x, self.position.y, self.position.z];
        let mut count: usize = 0;
        let mut i: usize = 0;
        while i < 3
            invariant
                half_size == cube_half(size as int),
                half_size != i32::MIN,
                coords@ == seq![self.position.x, self.position.y, self.position.z],
                i <= 3,
                count == (if i > 0 && (self.position.x == -half_size || self.position.x == half_size) {
                    1int
                } else {
                    0
                }) + (if i > 1 && (self.position.y == -half_size || self.position.y == half_size) {
                    1int
                } else {
                    0
                }) + (if i > 2 && (self.position.z == -half_size || self.position.z == half_size) {
                    1int
                } else {
                    0
                }),
            decreases 3 - i,
        {
            let c = coords[i];
            if c == -half_size || c == half_size {
                count += 1;
            }
            i += 1;
        }
        count
    }

    fn rotate(&self, axis: Axis, clockwise: bool) -> (r: Self)
        ensures
            r == self.spec_rotate(axis, clockwise),
    {
        Self {
            position: self.position.rotate(axis, clockwise),
            orientation: self.orientation.rotate(axis, clockwise),
        }
    }
}

/// How far a move turns its layer.
#[derive(Debug, Clone, Copy, PartialEq, Eq, Hash, Structural)]
pub enum MoveRotations {
    Clockwise,
    Half,
    CounterClockwise,
}

/// A move: turning the layer at `layer` along `axis` by `rotation`.
#[derive(Debug, Copy, Eq, Hash)]
pub struct MoveId {
    axis: Axis,
    layer: i32,
    rotation: MoveRotations,
}

impl Clone for MoveId {
    fn clone(&self) -> (r: Self)
        ensures
            r == *self,
    {
        *self
    }
}

impl PartialEq for MoveId {
    fn eq(&self, other: &Self) -> (r: bool) {
        self.axis == other.axis && self.layer == other.layer && self.rotation == other.rotation
    }
}

impl vstd::std_specs::cmp::PartialEqSpecImpl for MoveId {
    open spec fn obeys_eq_spec() -> bool {
        true
    }

    open spec fn eq_spec(&self, other: &MoveId) -> bool {
        *self == *other
    }
}

impl View for MoveId {
    type V = MoveId;

    open spec fn view(&self) -> MoveId {
        *self
    }
}

impl MoveId {
    /// The move that turns the same layer back.
    pub closed spec fn spec_inverse(self) -> MoveId {
        MoveId {
            axis: self.axis,
            layer: self.layer,
            rotation: match self.rotation {
                MoveRotations::Clockwise => MoveRotations::CounterClockwise,
                MoveRotations::Half => MoveRotations::Half,
                MoveRotations::CounterClockwise => MoveRotations::Clockwise,
            },
        }
    }

    /// The move turns the layer holding `cubie`.
    pub closed spec fn spec_turns(self, cubie: Cubie) -> bool {
        cubie.spec_coord(self.axis) == self.layer
    }

    /// The axis the move turns about.
    pub closed spec fn spec_axis(self) -> Axis {
        self.axis
    }

    /// The layer the move turns.
    pub closed spec fn spec_layer(self) -> int {
        self.layer as int
    }

    /// How far the move turns its layer.
    pub closed spec fn spec_rotation(self) -> MoveRotations {
        self.rotation
    }

    /// The move turns by half a turn.
    pub closed spec fn spec_is_half(self) -> bool {
        self.rotation == MoveRotations::Half
    }
}

impl Move<Cubie> for MoveId {
    closed spec fn spec_apply(&self, piece: Cubie) -> Cubie {
        if piece.spec_coord(self.axis) == self.layer {
            match self.rotation {
                MoveRotations::Clockwise => piece.spec_rotate(self.axis, true),
                MoveRotations::Half => piece.spec_rotate(self.axis, true).spec_rotate(self.axis, true),
                MoveRotations::CounterClockwise => piece.spec_rotate(self.axis, false),
            }
        } else {
            piece
        }
    }

    fn apply(&self, piece: &Cubie) -> (r: Cubie) {
        if piece.position.coord(self.axis) == self.layer {
            match self.rotation {
                MoveRotations::Clockwise => piece.rotate(self.axis, true),
                MoveRotations::Half => piece.rotate(self.axis, true).rotate(self.axis, true),
                MoveRotations::CounterClockwise => piece.rotate(self.axis, false),
            }
        } else {
            *piece
        }
    }
}

/// Law: on every cubie without an `i32::MIN` coordinate, two clockwise
/// quarter turns of a layer, or two counter-clockwise ones, are its half
/// turn, and a clockwise and a counter-clockwise quarter turn undo each
/// other.
pub proof fn lemma_quarter_and_half_turns(axis: Axis, layer: i32, c: Cubie)
    requires
        c.spec_valid(),
    ensures
        ({
            let cw = MoveId::spec_new(axis, layer as int, MoveRotations::Clockwise);
            let half = MoveId::spec_new(axis, layer as int, MoveRotations::Half);
            let ccw = MoveId::spec_new(axis, layer as int, MoveRotations::CounterClockwise);
            &&& cw.spec_apply(cw.spec_apply(c)) == half.spec_apply(c)
            &&& ccw.spec_apply(ccw.spec_apply(c)) == half.spec_apply(c)
            &&& cw.spec_apply(ccw.spec_apply(c)) == c
            &&& ccw.spec_apply(cw.spec_apply(c)) == c
        }),
{
    let p = c.position;
    let o = c.orientation;
    lemma_vec_rotate(p, axis, true);
    lemma_vec_rotate(o, axis, true);
    lemma_vec_rotate(p, axis, false);
    lemma_vec_rotate(o, axis, false);
    lemma_vec_rotate(p.spec_rotate(axis, true), axis, true);
    lemma_vec_rotate(p.spec_rotate(axis, false), axis, false);
}

/// Law: a move followed by its inverse gives every cubie back.
pub proof fn lemma_move_inverse(m: MoveId, c: Cubie)
    requires
        c.spec_valid(),
    ensures
        m.spec_inverse().spec_apply(m.spec_apply(c)) == c,
{
    lemma_vec_rotate(c.position, m.axis, true);
    lemma_vec_rotate(c.orientation, m.axis, true);
    lemma_vec_rotate(c.position, m.axis, false);
    lemma_vec_rotate(c.orientation, m.axis, false);
    let once = c.spec_rotate(m.axis, true);
    lemma_vec_rotate(once.position, m.axis, true);
    lemma_vec_rotate(once.orientation, m.axis, true);
    lemma_vec_rotate(once.spec_rotate(m.axis, true).position, m.axis, true);
    lemma_vec_rotate(once.spec_rotate(m.axis, true).orientation, m.axis, true);
}

/// Law: a move keeps which cubies its layer holds.
pub proof fn lemma_move_keeps_layer(m: MoveId, c: Cubie)
    requires
        c.spec_valid(),
    ensures
        m.spec_turns(m.spec_apply(c)) == m.spec_turns(c),
{
    lemma_vec_rotate(c.position, m.axis, true);
    lemma_vec_rotate(c.position, m.axis, false);
    lemma_vec_rotate(c.position.spec_rotate(m.axis, true), m.axis, true);
}

/// Law: a move applied four times gives every cubie back, and a half turn
/// applied twice does too.
pub proof fn lemma_move_order(m: MoveId, c: Cubie)
    requires
        c.spec_valid(),
    ensures
        m.spec_apply(m.spec_apply(m.spec_apply(m.spec_apply(c)))) == c,
        m.spec_is_half() ==> m.spec_apply(m.spec_apply(c)) == c,
{
    let p = c.position;
    let o = c.orientation;
    let a = m.axis;
    lemma_vec_rotate(p, a, true);
    lemma_vec_rotate(o, a, true);
    lemma_vec_rotate(p, a, false);
    lemma_vec_rotate(o, a, false);
    lemma_vec_rotate(p.spec_rotate(a, true), a, true);
    lemma_vec_rotate(o.spec_rotate(a, true), a, true);
    lemma_vec_rotate(p.spec_rotate(a, false), a, false);
    lemma_vec_rotate(o.spec_rotate(a, false), a, false);
    lemma_vec_rotate(p.spec_rotate(a, true).spec_rotate(a, true), a, true);
    lemma_vec_rotate(o.spec_rotate(a, true).spec_rotate(a, true), a, true);
    lemma_vec_rotate(p.spec_rotate(a, false).spec_rotate(a, false), a, false);
    lemma_vec_rotate(o.spec_rotate(a, false).spec_rotate(a, false), a, false);
    lemma_vec_rotate(p.spec_rotate(a, true).spec_rotate(a, true).spec_rotate(a, true), a, true);
    lemma_vec_rotate(o.spec_rotate(a, true).spec_rotate(a, true).spec_rotate(a, true), a, true);
}

/// The state of the automaton that keeps move sequences canonical: the
/// axis of the last moves, and the layers turned about it since the axis
/// was last changed.
#[derive(Debug, Default, Eq, Hash)]
pub struct DfaState {
    current_axis: Option<Axis>,
    turned_layers: Vec<i32>,
}

impl Clone for DfaState {
    fn clone(&self) -> (r: Self)
        ensures
            r@ == self@,
    {
        let turned_layers = self.turned_layers.clone();
        proof {
            lemma_i32_clone();
        }
        assert(turned_layers@ =~= self.turned_layers@);
        DfaState { current_axis: self.current_axis, turned_layers }
    }
}

impl PartialEq for DfaState {
    fn eq(&self, other: &Self) -> (r: bool) {
        let same_axis = match (self.current_axis, other.current_axis) {
            (Some(a), Some(b)) => a == b,
            (None, None) => true,
            _ => false,
        };
        if !same_axis || self.turned_layers.len() != other.turned_layers.len() {
            return false;
        }
        let mut i: usize = 0;
        while i < self.turned_layers.len()
            invariant
                self.turned_layers@.len() == other.turned_layers@.len(),
                i <= self.turned_layers@.len(),
                forall|j: int| 0 <= j < i ==> self.turned_layers@[j] == other.turned_layers@[j],
            decreases self.turned_layers@.len() - i,
        {
            if self.turned_layers[i] != other.turned_layers[i] {
                return false;
            }
            i += 1;
        }
        assert(self.turned_layers@ =~= other.turned_layers@);
        true
    }
}

impl vstd::std_specs::cmp::PartialEqSpecImpl for DfaState {
    open spec fn obeys_eq_spec() -> bool {
        true
    }

    open spec fn eq_spec(&self, other: &DfaState) -> bool {
        self@ == other@
    }
}

impl View for DfaState {
    type V = (Option<Axis>, Seq<i32>);

    closed spec fn view(&self) -> (Option<Axis>, Seq<i32>) {
        (self.current_axis, self.turned_layers@)
    }
}

/// The largest of `layers`, or -1 where there is none.
pub open spec fn max_layer(layers: Seq<i32>) -> int
    decreases layers.len(),
{
    if layers.len() == 0 {
        -1
    } else if layers.len() == 1 {
        layers[0] as int
    } else {
        let rest = max_layer(layers.drop_last());
        if layers.last() > rest {
            layers.last() as int
        } else {
            rest
        }
    }
}

/// The automaton's step: a move about another axis starts a new run of
/// moves about that axis; a move about the same axis is allowed only to a
/// layer not turned yet in this run and not below the highest one turned.
pub closed spec fn dfa_step(state: (Option<Axis>, Seq<i32>), move_id: MoveId) -> Option<
    (Option<Axis>, Seq<i32>),
> {
    if state.0 == Some(move_id.axis) {
        if state.1.contains(move_id.layer) || move_id.layer < max_layer(state.1) {
            None
        } else {
            Some((state.0, state.1.push(move_id.layer)))
        }
    } else {
        Some((Some(move_id.axis), seq![move_id.layer]))
    }
}

fn contains_layer(layers: &Vec<i32>, layer: i32) -> (r: bool)
    ensures
        r == layers@.contains(layer),
{
    let mut i: usize = 0;
    while i < layers.len()
        invariant
            i <= layers@.len(),
            forall|j: int| 0 <= j < i ==> layers@[j] != layer,
        decreases layers@.len() - i,
    {
        if layers[i] == layer {
            return true;
        }
        i += 1;
    }
    false
}

fn max_turned_layer(layers: &Vec<i32>) -> (r: i32)
    ensures
        r == max_layer(layers@),
{
    if layers.len() == 0 {
        return -1;
    }
    let mut max: i32 = layers[0];
    let mut i: usize = 1;
    assert(layers@.take(1) =~= seq![layers@[0]]);
    while i < layers.len()
        invariant
            1 <= i <= layers@.len(),
            max == max_layer(layers@.take(i as int)),
        decreases layers@.len() - i,
    {
        assert(layers@.take(i + 1).drop_last() =~= layers@.take(i as int));
        if layers[i] > max {
            max = layers[i];
        }
        i += 1;
    }
    assert(layers@.take(layers@.len() as int) =~= layers@);
    max
}

fn dfa_eval(dfa_state: &DfaState, move_id: &MoveId) -> (r: Option<DfaState>)
    ensures
        match r {
            Some(n) => dfa_step(dfa_state@, *move_id) == Some(n@),
            None => dfa_step(dfa_state@, *move_id) is None,
        },
{
    let same_axis = match dfa_state.current_axis {
        Some(axis) => axis == move_id.axis,
        None => false,
    };
    if same_axis {
        if contains_layer(&dfa_state.turned_layers, move_id.layer) || move_id.layer
            < max_turned_layer(&dfa_state.turned_layers) {
            None
        } else {
            let mut turned_layers = dfa_state.turned_layers.clone();
            assert(turned_layers@ =~= dfa_state.turned_layers@);
            turned_layers.push(move_id.layer);
            Some(DfaState { current_axis: dfa_state.current_axis, turned_layers })
        }
    } else {
        let mut turned_layers: Vec<i32> = Vec::new();
        turned_layers.push(move_id.layer);
        assert(turned_layers@ =~= seq![move_id.layer]);
        Some(DfaState { current_axis: Some(move_id.axis), turned_layers })
    }
}

impl DfaEvaluator<MoveId> for DfaState {
    open spec fn spec_next(state: (Option<Axis>, Seq<i32>), move_key: MoveId) -> Option<
        (Option<Axis>, Seq<i32>),
    > {
        dfa_step(state, move_key)
    }

    fn next(&self, move_key: &MoveId) -> (r: Option<Self>) {
        dfa_eval(self, move_key)
    }
}

/// `max_layer` is at least each layer.
proof fn lemma_max_layer(layers: Seq<i32>)
    ensures
        forall|i: int| 0 <= i < layers.len() ==> layers[i] <= max_layer(layers),
    decreases layers.len(),
{
    if layers.len() > 0 {
        lemma_max_layer(layers.drop_last());
        assert forall|i: int| 0 <= i < layers.len() implies layers[i] <= max_layer(layers) by {
            if i < layers.len() - 1 {
                assert(layers.drop_last()[i] == layers[i]);
            }
        }
    }
}

/// Law: after a move, the automaton refuses any move about the same axis to
/// a layer not above the one just turned; so the layers turned about one
/// axis in a row strictly increase, and no layer is turned twice in a row.
pub proof fn lemma_dfa_layers_increase(
    state: (Option<Axis>, Seq<i32>),
    first: MoveId,
    second: MoveId,
)
    requires
        dfa_step(state, first) is Some,
        second.spec_axis() == first.spec_axis(),
        second.spec_layer() <= first.spec_layer(),
    ensures
        dfa_step(dfa_step(state, first)->0, second) is None,
{
    let next = dfa_step(state, first)->0;
    assert(next.1[next.1.len() - 1] == first.layer);
    lemma_max_layer(next.1);
    if second.layer == first.layer {
        assert(next.1.contains(second.layer));
    }
}

/// Law: the automaton reads only a move's axis and layer, never its
/// rotation.
pub proof fn lemma_dfa_ignores_rotation(
    state: (Option<Axis>, Seq<i32>),
    axis: Axis,
    layer: i32,
    r1: MoveRotations,
    r2: MoveRotations,
)
    ensures
        dfa_step(state, MoveId::spec_new(axis, layer as int, r1)) == dfa_step(
            state,
            MoveId::spec_new(axis, layer as int, r2),
        ),
{
}

/// A run of the automaton: the layers turned strictly increase, and there
/// is an axis exactly where some layer was turned.
pub open spec fn run_well_formed(state: (Option<Axis>, Seq<i32>)) -> bool {
    &&& forall|i: int, j: int| 0 <= i < j < state.1.len() ==> state.1[i] < state.1[j]
    &&& (state.0 is None <==> state.1.len() == 0)
}

/// The largest of strictly increasing layers is the last.
proof fn lemma_max_layer_increasing(layers: Seq<i32>)
    requires
        layers.len() > 0,
        forall|i: int, j: int| 0 <= i < j < layers.len() ==> layers[i] < layers[j],
    ensures
        max_layer(layers) == layers.last(),
    decreases layers.len(),
{
    if layers.len() > 1 {
        let init = layers.drop_last();
        assert forall|i: int, j: int| 0 <= i < j < init.len() implies init[i] < init[j] by {
            assert(init[i] == layers[i] && init[j] == layers[j]);
        }
        lemma_max_layer_increasing(init);
        assert(init.last() == layers[layers.len() - 2]);
    }
}

/// Law: from a well-formed run, a move is refused exactly where it is about
/// the run's axis and its layer is not above the last layer turned; an
/// allowed move leads to a well-formed run about its axis: the same run with
/// the move's layer added where the axis is the same, else a new run of that
/// layer alone.
pub proof fn lemma_dfa_runs(state: (Option<Axis>, Seq<i32>), m: MoveId)
    requires
        run_well_formed(state),
    ensures
        dfa_step(state, m) is None <==> (state.0 == Some(m.spec_axis()) && m.spec_layer()
            <= state.1.last()),
        dfa_step(state, m) matches Some(n) ==> {
            &&& n.0 == Some(m.spec_axis())
            &&& run_well_formed(n)
            &&& n.1.last() == m.spec_layer()
            &&& n.1 == (if state.0 == Some(m.spec_axis()) {
                state.1
            } else {
                Seq::empty()
            }).push(m.spec_layer() as i32)
        },
{
    if state.0 == Some(m.axis) {
        lemma_max_layer_increasing(state.1);
        if m.layer == state.1.last() {
            assert(state.1.contains(m.layer));
        }
        if state.1.contains(m.layer) {
            let i = choose|i: int| 0 <= i < state.1.len() && state.1[i] == m.layer;
            if i < state.1.len() - 1 {
                assert(state.1[i] < state.1[state.1.len() - 1]);
            }
        }
    }
}

/// Law: a move about another axis than the last moves' (so every move at
/// the start) is allowed, and starts a new run of moves about its axis.
pub proof fn lemma_dfa_new_axis(state: (Option<Axis>, Seq<i32>), m: MoveId)
    requires
        state.0 != Some(m.spec_axis()),
    ensures
        dfa_step(state, m) == Some((Some(m.spec_axis()), seq![m.spec_layer() as i32])),
{
}

/// Lexicographic order on triples.
pub open spec fn triple_lt(a: (int, int, int), b: (int, int, int)) -> bool {
    a.0 < b.0 || (a.0 == b.0 && (a.1 < b.1 || (a.1 == b.1 && a.2 < b.2)))
}

/// Half the side of a cube of side `size`, as an `i32`: `size / 2`, wrapped
/// where it does not fit.
pub open spec fn cube_half(size: int) -> int {
    ((size / 2) as i32) as int
}

/// The number of coordinates from `-cube_half(size)` to `cube_half(size)`.
pub open spec fn box_width(size: int) -> nat {
    if cube_half(size) < 0 {
        0
    } else {
        (2 * cube_half(size) + 1) as nat
    }
}

/// A coordinate of a layer of a cube of side `size`: from
/// `-cube_half(size)` to `cube_half(size)`, without 0 where `size` is even.
pub open spec fn in_dim_range(size: int, v: int) -> bool {
    -cube_half(size) <= v <= cube_half(size) && (size % 2 != 0 || v != 0)
}

/// A point of the cube of side `size` that lies on its surface.
pub open spec fn surface_point(size: int, x: int, y: int, z: int) -> bool {
    &&& in_dim_range(size, x)
    &&& in_dim_range(size, y)
    &&& in_dim_range(size, z)
    &&& (x == -cube_half(size) || x == cube_half(size) || y == -cube_half(size) || y == cube_half(
        size,
    ) || z == -cube_half(size) || z == cube_half(size))
}

/// The position of an axis in `X, Y, Z`.
pub open spec fn axis_index(axis: Axis) -> int {
    match axis {
        Axis::X => 0,
        Axis::Y => 1,
        Axis::Z => 2,
    }
}

/// The position of a rotation in `Clockwise, Half, CounterClockwise`.
pub open spec fn rotation_index(rotation: MoveRotations) -> int {
    match rotation {
        MoveRotations::Clockwise => 0,
        MoveRotations::Half => 1,
        MoveRotations::CounterClockwise => 2,
    }
}

impl Cubie {
    /// A cubie of the solved cube of side `size`: on the surface, facing
    /// along the z axis.
    pub closed spec fn spec_solved_cubie(self, size: int) -> bool {
        &&& surface_point(
            size,
            self.position.x as int,
            self.position.y as int,
            self.position.z as int,
        )
        &&& self.orientation.spec_is(0, 0, 1)
    }
}

impl MoveId {
    /// The move turning `layer` about `axis` by `rotation`.
    pub closed spec fn spec_new(axis: Axis, layer: int, rotation: MoveRotations) -> MoveId {
        MoveId { axis, layer: layer as i32, rotation }
    }

    /// The position of the move in the order axis, layer, rotation.
    pub closed spec fn spec_key(self) -> (int, int, int) {
        (axis_index(self.axis), self.layer as int, rotation_index(self.rotation))
    }

    /// A move of the cube of side `size`.
    pub closed spec fn spec_valid_for(self, size: int) -> bool {
        in_dim_range(size, self.layer as int)
    }
}

/// `cubies` are the solved cube of side `size`: its surface cubies, each
/// once, facing along the z axis, in order of `(z, y, x)`.
pub open spec fn solved_cube(size: int, cubies: Seq<Cubie>) -> bool {
    &&& forall|i: int| 0 <= i < cubies.len() ==> #[trigger] cubies[i].spec_solved_cubie(size)
    &&& forall|i: int, j: int|
        0 <= i < j < cubies.len() ==> triple_lt(#[trigger] cubies[i].spec_zyx(), #[trigger] cubies[j].spec_zyx())
    &&& forall|x: int, y: int, z: int|
        #[trigger] surface_point(size, x, y, z) ==> exists|i: int|
            0 <= i < cubies.len() && #[trigger] cubies[i].spec_zyx() == (z, y, x)
}

/// `moves` are the moves of the cube of side `size`: every layer about
/// every axis by every rotation, each once, in order of axis, layer and
/// rotation.
pub open spec fn cube_move_list(size: int, moves: Seq<MoveId>) -> bool {
    &&& forall|i: int| 0 <= i < moves.len() ==> #[trigger] moves[i].spec_valid_for(size)
    &&& forall|i: int, j: int|
        0 <= i < j < moves.len() ==> triple_lt(#[trigger] moves[i].spec_key(), #[trigger] moves[j].spec_key())
    &&& forall|a: Axis, l: int, t: MoveRotations|
        #![trigger MoveId::spec_new(a, l, t)]
        in_dim_range(size, l) ==> exists|i: int|
            0 <= i < moves.len() && #[trigger] moves[i] == MoveId::spec_new(a, l, t)
}

fn axis_at(i: usize) -> (r: Axis)
    requires
        i < 3,
    ensures
        axis_index(r) == i,
{
    if i == 0 {
        Axis::X
    } else if i == 1 {
        Axis::Y
    } else {
        Axis::Z
    }
}

fn rotation_at(i: usize) -> (r: MoveRotations)
    requires
        i < 3,
    ensures
        rotation_index(r) == i,
{
    if i == 0 {
        MoveRotations::Clockwise
    } else if i == 1 {
        MoveRotations::Half
    } else {
        MoveRotations::CounterClockwise
    }
}

/// The surface cubies of the cube of side `size`, in order of `(z, y, x)`.
fn solved_cubies(size: usize) -> (r: Vec<Cubie>)
    requires
        (size / 2) as i32 != i32::MIN,
    ensures
        solved_cube(size as int, r@),
{
    let half_size = (size / 2) as i32;
    let include_zero = size % 2 != 0;
    let ghost h = cube_half(size as int);
    if half_size < 0 {
        return Vec::new();
    }
    let mut solved_state: Vec<Cubie> = Vec::new();
    let mut z: i64 = -(half_size as i64);
    while z <= half_size as i64
        invariant
            half_size == h,
            h == cube_half(size as int),
            0 <= h <= i32::MAX,
            include_zero == (size % 2 != 0),
            -h <= z <= h + 1,
            forall|i: int| 0 <= i < solved_state@.len() ==> #[trigger] solved_state@[i].spec_solved_cubie(size as int),
            forall|i: int| 0 <= i < solved_state@.len() ==> triple_lt(#[trigger] solved_state@[i].spec_zyx(), (z as int, -h - 1, -h - 1)),
            forall|i: int, j: int|
                0 <= i < j < solved_state@.len() ==> triple_lt(#[trigger] solved_state@[i].spec_zyx(), #[trigger] solved_state@[j].spec_zyx()),
            forall|xx: int, yy: int, zz: int|
                #[trigger] surface_point(size as int, xx, yy, zz) && zz < z ==> exists|i: int|
                    0 <= i < solved_state@.len() && #[trigger] solved_state@[i].spec_zyx() == (zz, yy, xx),
        decreases h + 1 - z,
    {
        if include_zero || z != 0 {
            let mut y: i64 = -(half_size as i64);
            while y <= half_size as i64
                invariant
                    half_size == h,
                    h == cube_half(size as int),
            0 <= h <= i32::MAX,
                    include_zero == (size % 2 != 0),
                    -h <= z <= h,
                    include_zero || z != 0,
                    -h <= y <= h + 1,
                    forall|i: int| 0 <= i < solved_state@.len() ==> #[trigger] solved_state@[i].spec_solved_cubie(size as int),
                    forall|i: int| 0 <= i < solved_state@.len() ==> triple_lt(#[trigger] solved_state@[i].spec_zyx(), (z as int, y as int, -h - 1)),
                    forall|i: int, j: int|
                        0 <= i < j < solved_state@.len() ==> triple_lt(#[trigger] solved_state@[i].spec_zyx(), #[trigger] solved_state@[j].spec_zyx()),
                    forall|xx: int, yy: int, zz: int|
                        #[trigger] surface_point(size as int, xx, yy, zz) && triple_lt((zz, yy, xx), (z as int, y as int, -h - 1)) ==> exists|i: int|
                            0 <= i < solved_state@.len() && #[trigger] solved_state@[i].spec_zyx() == (zz, yy, xx),
                decreases h + 1 - y,
            {
                if include_zero || y != 0 {
                    let mut x: i64 = -(half_size as i64);
                    while x <= half_size as i64
                        invariant
                            half_size == h,
                            h == cube_half(size as int),
            0 <= h <= i32::MAX,
                            include_zero == (size % 2 != 0),
                            -h <= z <= h,
                            include_zero || z != 0,
                            -h <= y <= h,
                            include_zero || y != 0,
                            -h <= x <= h + 1,
                            forall|i: int| 0 <= i < solved_state@.len() ==> #[trigger] solved_state@[i].spec_solved_cubie(size as int),
                            forall|i: int| 0 <= i < solved_state@.len() ==> triple_lt(#[trigger] solved_state@[i].spec_zyx(), (z as int, y as int, x as int)),
                            forall|i: int, j: int|
                                0 <= i < j < solved_state@.len() ==> triple_lt(#[trigger] solved_state@[i].spec_zyx(), #[trigger] solved_state@[j].spec_zyx()),
                            forall|xx: int, yy: int, zz: int|
                                #[trigger] surface_point(size as int, xx, yy, zz) && triple_lt((zz, yy, xx), (z as int, y as int, x as int)) ==> exists|i: int|
                                    0 <= i < solved_state@.len() && #[trigger] solved_state@[i].spec_zyx() == (zz, yy, xx),
                        decreases h + 1 - x,
                    {
                        if include_zero || x != 0 {
                            let cubie = Cubie::new(x as i32, y as i32, z as i32);
                            let outer_score = cubie.outer_score(size);
                            if outer_score > 0 {
                                let ghost before = solved_state@;
                                solved_state.push(cubie);
                                assert(solved_state@[before.len() as int].spec_zyx() == (z as int, y as int, x as int));
                                assert forall|xx: int, yy: int, zz: int|
                                    #[trigger] surface_point(size as int, xx, yy, zz) && triple_lt((zz, yy, xx), (z as int, y as int, x + 1)) implies exists|i: int|
                                        0 <= i < solved_state@.len() && #[trigger] solved_state@[i].spec_zyx() == (zz, yy, xx) by {
                                    if triple_lt((zz, yy, xx), (z as int, y as int, x as int)) {
                                        let i = choose|i: int| 0 <= i < before.len() && #[trigger] before[i].spec_zyx() == (zz, yy, xx);
                                        assert(solved_state@[i] == before[i]);
                                    } else {
                                        assert(solved_state@[before.len() as int].spec_zyx() == (zz, yy, xx));
                                    }
                                }
                            }
                        }
                        x += 1;
                    }
                }
                y += 1;
            }
        }
        z += 1;
    }
    solved_state
}

/// The moves of the cube of side `size`, in order of axis, layer and
/// rotation.
fn cube_moves(size: usize) -> (r: Vec<MoveId>)
    requires
        (size / 2) as i32 != i32::MIN,
    ensures
        cube_move_list(size as int, r@),
{
    let half_size = (size / 2) as i32;
    let include_zero = size % 2 != 0;
    let ghost h = cube_half(size as int);
    if half_size < 0 {
        return Vec::new();
    }
    let mut moves: Vec<MoveId> = Vec::new();
    let mut a: usize = 0;
    while a < 3
        invariant
            half_size == h,
            h == cube_half(size as int),
            0 <= h <= i32::MAX,
            include_zero == (size % 2 != 0),
            a <= 3,
            forall|i: int| 0 <= i < moves@.len() ==> #[trigger] moves@[i].spec_valid_for(size as int),
            forall|i: int| 0 <= i < moves@.len() ==> triple_lt(#[trigger] moves@[i].spec_key(), (a as int, -h - 1, 0)),
            forall|i: int, j: int|
                0 <= i < j < moves@.len() ==> triple_lt(#[trigger] moves@[i].spec_key(), #[trigger] moves@[j].spec_key()),
            forall|aa: Axis, l: int, t: MoveRotations|
                #![trigger MoveId::spec_new(aa, l, t)]
                in_dim_range(size as int, l) && axis_index(aa) < a ==> exists|i: int|
                    0 <= i < moves@.len() && #[trigger] moves@[i] == MoveId::spec_new(aa, l, t),
        decreases 3 - a,
    {
        let dimension = axis_at(a);
        let mut l: i64 = -(half_size as i64);
        assert forall|aa: Axis, ll: int, t: MoveRotations|
            #![trigger MoveId::spec_new(aa, ll, t)]
            in_dim_range(size as int, ll) && triple_lt((axis_index(aa), ll, 0), (a as int, l as int, 0)) implies exists|i: int|
                0 <= i < moves@.len() && #[trigger] moves@[i] == MoveId::spec_new(aa, ll, t) by {
            assert(in_dim_range(size as int, ll) && axis_index(aa) < a ==> exists|i: int|
                0 <= i < moves@.len() && #[trigger] moves@[i] == MoveId::spec_new(aa, ll, t));
        }
        while l <= half_size as i64
            invariant
                half_size == h,
                h == cube_half(size as int),
            0 <= h <= i32::MAX,
                include_zero == (size % 2 != 0),
                a < 3,
                axis_index(dimension) == a,
                -h <= l <= h + 1,
                forall|i: int| 0 <= i < moves@.len() ==> #[trigger] moves@[i].spec_valid_for(size as int),
                forall|i: int| 0 <= i < moves@.len() ==> triple_lt(#[trigger] moves@[i].spec_key(), (a as int, l as int, 0)),
                forall|i: int, j: int|
                    0 <= i < j < moves@.len() ==> triple_lt(#[trigger] moves@[i].spec_key(), #[trigger] moves@[j].spec_key()),
                forall|aa: Axis, ll: int, t: MoveRotations|
                    #![trigger MoveId::spec_new(aa, ll, t)]
                    in_dim_range(size as int, ll) && triple_lt((axis_index(aa), ll, 0), (a as int, l as int, 0)) ==> exists|i: int|
                        0 <= i < moves@.len() && #[trigger] moves@[i] == MoveId::spec_new(aa, ll, t),
            decreases h + 1 - l,
        {
            if include_zero || l != 0 {
                assert(in_dim_range(size as int, l as int));
                assert forall|aa: Axis, ll: int, tt: MoveRotations|
                    #![trigger MoveId::spec_new(aa, ll, tt)]
                    in_dim_range(size as int, ll) && triple_lt((axis_index(aa), ll, rotation_index(tt)), (a as int, l as int, 0)) implies exists|i: int|
                        0 <= i < moves@.len() && #[trigger] moves@[i] == MoveId::spec_new(aa, ll, tt) by {
                    assert(triple_lt((axis_index(aa), ll, 0), (a as int, l as int, 0)));
                    assert(in_dim_range(size as int, ll));
                    assert(in_dim_range(size as int, ll) && triple_lt((axis_index(aa), ll, 0), (a as int, l as int, 0)) ==> exists|i: int|
                        0 <= i < moves@.len() && #[trigger] moves@[i] == MoveId::spec_new(aa, ll, tt));
                }
                let mut t: usize = 0;
                while t < 3
                    invariant
                        half_size == h,
                        h == cube_half(size as int),
            0 <= h <= i32::MAX,
                        include_zero == (size % 2 != 0),
                        a < 3,
                        axis_index(dimension) == a,
                        -h <= l <= h,
                        in_dim_range(size as int, l as int),
                        t <= 3,
                        forall|i: int| 0 <= i < moves@.len() ==> #[trigger] moves@[i].spec_valid_for(size as int),
                        forall|i: int| 0 <= i < moves@.len() ==> triple_lt(#[trigger] moves@[i].spec_key(), (a as int, l as int, t as int)),
                        forall|i: int, j: int|
                            0 <= i < j < moves@.len() ==> triple_lt(#[trigger] moves@[i].spec_key(), #[trigger] moves@[j].spec_key()),
                        forall|aa: Axis, ll: int, tt: MoveRotations|
                            #![trigger MoveId::spec_new(aa, ll, tt)]
                            in_dim_range(size as int, ll) && triple_lt((axis_index(aa), ll, rotation_index(tt)), (a as int, l as int, t as int)) ==> exists|i: int|
                                0 <= i < moves@.len() && #[trigger] moves@[i] == MoveId::spec_new(aa, ll, tt),
                    decreases 3 - t,
                {
                    let rotation = rotation_at(t);
                    let ghost before = moves@;
                    let move_id = MoveId { axis: dimension, layer: l as i32, rotation };
                    moves.push(move_id);
                    assert forall|aa: Axis, ll: int, tt: MoveRotations|
                            #![trigger MoveId::spec_new(aa, ll, tt)]
                        in_dim_range(size as int, ll) && triple_lt((axis_index(aa), ll, rotation_index(tt)), (a as int, l as int, t + 1)) implies exists|i: int|
                            0 <= i < moves@.len() && #[trigger] moves@[i] == MoveId::spec_new(aa, ll, tt) by {
                        if triple_lt((axis_index(aa), ll, rotation_index(tt)), (a as int, l as int, t as int)) {
                            let i = choose|i: int| 0 <= i < before.len() && #[trigger] before[i] == MoveId::spec_new(aa, ll, tt);
                            assert(moves@[i] == before[i]);
                        } else {
                            assert(aa == dimension && rotation_index(tt) == t && tt == rotation);
                            assert(moves@[before.len() as int] == MoveId::spec_new(aa, ll, tt));
                        }
                    }
                    t += 1;
                }
            }
            l += 1;
        }
        assert forall|aa: Axis, ll: int, t: MoveRotations|
            #![trigger MoveId::spec_new(aa, ll, t)]
            in_dim_range(size as int, ll) && axis_index(aa) < a + 1 implies exists|i: int|
                0 <= i < moves@.len() && #[trigger] moves@[i] == MoveId::spec_new(aa, ll, t) by {
            assert(in_dim_range(size as int, ll) && triple_lt((axis_index(aa), ll, 0), (a as int, l as int, 0)) ==> exists|i: int|
                0 <= i < moves@.len() && #[trigger] moves@[i] == MoveId::spec_new(aa, ll, t));
        }
        a += 1;
    }
    assert forall|aa: Axis, ll: int, t: MoveRotations|
        #![trigger MoveId::spec_new(aa, ll, t)]
        in_dim_range(size as int, ll) implies exists|i: int|
            0 <= i < moves@.len() && #[trigger] moves@[i] == MoveId::spec_new(aa, ll, t) by {
        assert(in_dim_range(size as int, ll) && axis_index(aa) < a ==> exists|i: int|
            0 <= i < moves@.len() && #[trigger] moves@[i] == MoveId::spec_new(aa, ll, t));
    }
    moves
}

/// The Rubik's cube of side `size`: its surface cubies, its moves (every
/// layer about every axis, by each rotation), and the automaton that keeps
/// move sequences canonical. Its layers are numbered from `-h` to `h` for
/// `h = (size / 2) as i32`, which must not be `i32::MIN` (it is negated).
pub fn rubik(size: usize) -> (r: PuzzleDefinition<Cubie, MoveId, DfaState>)
    requires
        (size / 2) as i32 != i32::MIN,
    ensures
        solved_cube(size as int, r.solved_state@),
        cube_move_list(size as int, r.moves@),
        r.dfa_start@ == (None::<Axis>, Seq::<i32>::empty()),
{
    let solved_state = solved_cubies(size);
    let moves = cube_moves(size);
    let dfa_start = DfaState { current_axis: None, turned_layers: Vec::new() };
    PuzzleDefinition { moves, solved_state, dfa_start }
}


/// Two-digit numbers in base `k` are equal only where their digits are.
proof fn lemma_digits_equal(a: int, b: int, a2: int, b2: int, k: int)
    by (nonlinear_arith)
    requires
        0 <= b < k,
        0 <= b2 < k,
        a * k + b == a2 * k + b2,
    ensures
        a == a2,
        b == b2,
{
}

/// A two-digit number in base `k` whose high digit is below `n` is below
/// `n * k`.
proof fn lemma_digits_range(a: int, b: int, k: int, n: int)
    by (nonlinear_arith)
    requires
        0 <= a < n,
        0 <= b < k,
    ensures
        0 <= a * k + b < n * k,
{
}

/// Cubing keeps the order of naturals.
proof fn lemma_cube_mono(a: int, b: int)
    by (nonlinear_arith)
    requires
        0 <= a <= b,
    ensures
        a * a * a <= b * b * b,
{
}

/// Each coordinate of `v` lies in `-h..=h`.
spec fn in_box(v: Vec3d, h: int) -> bool {
    &&& -h <= v.x <= h
    &&& -h <= v.y <= h
    &&& -h <= v.z <= h
}

/// The position of `v` among the six unit vectors along the axes, or -1
/// where it is none of them.
spec fn unit_index(v: Vec3d) -> int {
    if v.x == 1 && v.y == 0 && v.z == 0 {
        0
    } else if v.x == -1 && v.y == 0 && v.z == 0 {
        1
    } else if v.x == 0 && v.y == 1 && v.z == 0 {
        2
    } else if v.x == 0 && v.y == -1 && v.z == 0 {
        3
    } else if v.x == 0 && v.y == 0 && v.z == 1 {
        4
    } else if v.x == 0 && v.y == 0 && v.z == -1 {
        5
    } else {
        -1
    }
}

/// A cubie that a cube with layers `-h..=h` can hold: within the cube,
/// facing along an axis.
spec fn cubie_in_cube(c: Cubie, h: int) -> bool {
    &&& 0 <= h <= i32::MAX
    &&& in_box(c.position, h)
    &&& unit_index(c.orientation) >= 0
}

/// A number for each cubie a cube with layers `-h..=h` can hold, by its
/// coordinates and the axis it faces along.
spec fn cubie_key(c: Cubie, h: int) -> int {
    let w = 2 * h + 1;
    (((c.position.x + h) * w + (c.position.y + h)) * w + (c.position.z + h)) * 6 + unit_index(
        c.orientation,
    )
}

/// A turn keeps a cubie within the cube and facing along an axis.
proof fn lemma_rotate_keeps_cube(c: Cubie, h: int, axis: Axis, clockwise: bool)
    requires
        cubie_in_cube(c, h),
    ensures
        cubie_in_cube(c.spec_rotate(axis, clockwise), h),
{
}

/// A move keeps a cubie within the cube and facing along an axis.
proof fn lemma_move_keeps_cube(m: MoveId, c: Cubie, h: int)
    requires
        cubie_in_cube(c, h),
    ensures
        cubie_in_cube(m.spec_apply(c), h),
{
    lemma_rotate_keeps_cube(c, h, m.axis, true);
    lemma_rotate_keeps_cube(c, h, m.axis, false);
    lemma_rotate_keeps_cube(c.spec_rotate(m.axis, true), h, m.axis, true);
}

/// The cubies a cube with layers `-h..=h` can hold have distinct numbers,
/// below `6 * (2 * h + 1)^3`.
proof fn lemma_cubie_key(c: Cubie, d: Cubie, h: int)
    requires
        cubie_in_cube(c, h),
        cubie_in_cube(d, h),
    ensures
        0 <= cubie_key(c, h) < (2 * h + 1) * (2 * h + 1) * (2 * h + 1) * 6,
        cubie_key(c, h) == cubie_key(d, h) ==> c == d,
{
    let w = 2 * h + 1;
    let (cx, cy, cz) = (c.position.x + h, c.position.y + h, c.position.z + h);
    let (dx, dy, dz) = (d.position.x + h, d.position.y + h, d.position.z + h);
    lemma_digits_range(cx, cy, w, w);
    lemma_digits_range(cx * w + cy, cz, w, w * w);
    lemma_digits_range((cx * w + cy) * w + cz, unit_index(c.orientation), 6, w * w * w);
    if cubie_key(c, h) == cubie_key(d, h) {
        lemma_digits_range(dx, dy, w, w);
        lemma_digits_range(dx * w + dy, dz, w, w * w);
        lemma_digits_equal(
            (cx * w + cy) * w + cz,
            unit_index(c.orientation),
            (dx * w + dy) * w + dz,
            unit_index(d.orientation),
            6,
        );
        lemma_digits_equal(cx * w + cy, cz, dx * w + dy, dz, w);
        lemma_digits_equal(cx, cy, dx, dy, w);
        assert(c.position == d.position);
        assert(c.orientation == d.orientation);
    }
}

/// Law: the search for the states a cubie of the solved cube of side `size`
/// reaches by any moves of the cube ends, and finds at most
/// `6 * box_width(size)^3` states: a cubie stays within the cube and faces
/// along one of the six directions of the axes.
pub proof fn lemma_cube_orbit_size(size: nat, cubies: Seq<Cubie>, moves: Seq<MoveId>, p: int)
    requires
        solved_cube(size as int, cubies),
        0 <= p < cubies.len(),
    ensures
        bfs_complete(
            cubies[p],
            move_images::<Cubie, MoveId>(moves),
            orbit_states::<Cubie, MoveId>(moves, cubies[p]).len(),
        ),
        orbit_states::<Cubie, MoveId>(moves, cubies[p]).len() <= 6 * box_width(size as int) * box_width(
            size as int,
        ) * box_width(size as int),
{
    let h = cube_half(size as int);
    let w = 2 * h + 1;
    let succ = move_images::<Cubie, MoveId>(moves);
    let inv = |c: Cubie| cubie_in_cube(c, h as int);
    let key = |c: Cubie| cubie_key(c, h as int);
    assert(cubies[p].spec_solved_cubie(size as int));
    assert(inv(cubies[p]));
    assert forall|x: Cubie, i: int| inv(x) && 0 <= i < succ(x).len() implies inv(#[trigger] succ(x)[i]) by {
        lemma_move_keeps_cube(moves[i], x, h as int);
    }
    assert forall|x: Cubie| inv(x) implies 0 <= #[trigger] key(x) < w * w * w * 6 by {
        lemma_cubie_key(x, x, h as int);
    }
    assert forall|x: Cubie, y: Cubie| inv(x) && inv(y) && #[trigger] key(x) == #[trigger] key(y) implies x
        == y by {
        lemma_cubie_key(x, y, h as int);
    }
    lemma_bfs_bounded(cubies[p], succ, inv, key, w * w * w * 6);
    assert(box_width(size as int) == w);
    assert(w * w * w * 6 == 6 * w * w * w) by (nonlinear_arith);
}

/// The number of a position in `-h..=h` cubed, by `(z, y, x)`.
spec fn zyx_key(t: (int, int, int), h: int) -> int {
    let w = 2 * h + 1;
    ((t.0 + h) * w + (t.1 + h)) * w + (t.2 + h)
}

/// Law: the solved cube of side `size` has at most `box_width(size)^3`
/// cubies, all different.
pub proof fn lemma_solved_cube_size(size: nat, cubies: Seq<Cubie>)
    requires
        solved_cube(size as int, cubies),
    ensures
        cubies.len() <= box_width(size as int) * box_width(size as int) * box_width(size as int),
        views(cubies).no_duplicates(),
{
    assert forall|i: int, j: int| 0 <= i < cubies.len() && 0 <= j < cubies.len() && i != j implies views(
        cubies,
    )[i] != views(cubies)[j] by {
        if i < j {
            assert(triple_lt(cubies[i].spec_zyx(), cubies[j].spec_zyx()));
        } else {
            assert(triple_lt(cubies[j].spec_zyx(), cubies[i].spec_zyx()));
        }
    }
    let h = cube_half(size as int);
    let w = 2 * h + 1;
    if h < 0 {
        if cubies.len() > 0 {
            assert(cubies[0].spec_solved_cubie(size as int));
        }
    } else {
        let key = |c: Cubie| zyx_key(c.spec_zyx(), h);
        assert forall|i: int| 0 <= i < cubies.len() implies 0 <= #[trigger] key(cubies[i]) < w * w * w by {
            assert(cubies[i].spec_solved_cubie(size as int));
            let t = cubies[i].spec_zyx();
            lemma_digits_range(t.0 + h, t.1 + h, w, w);
            lemma_digits_range((t.0 + h) * w + t.1 + h, t.2 + h, w, w * w);
        }
        assert forall|i: int, j: int| 0 <= i < j < cubies.len() implies key(#[trigger] cubies[i]) != key(
            #[trigger] cubies[j],
        ) by {
            assert(cubies[i].spec_solved_cubie(size as int));
            assert(cubies[j].spec_solved_cubie(size as int));
            assert(triple_lt(cubies[i].spec_zyx(), cubies[j].spec_zyx()));
            let a = cubies[i].spec_zyx();
            let b = cubies[j].spec_zyx();
            if key(cubies[i]) == key(cubies[j]) {
                lemma_digits_range(a.0 + h, a.1 + h, w, w);
                lemma_digits_range(b.0 + h, b.1 + h, w, w);
                lemma_digits_equal((a.0 + h) * w + a.1 + h, a.2 + h, (b.0 + h) * w + b.1 + h, b.2 + h, w);
                lemma_digits_equal(a.0 + h, a.1 + h, b.0 + h, b.1 + h, w);
            }
        }
        lemma_cube_mono(0int, w);
        lemma_distinct_keys_bound(cubies, key, w * w * w);
    }
}

/// The number of a move of a cube with layers `-h..=h`, by axis, layer and
/// rotation.
spec fn move_key(m: MoveId, h: int) -> int {
    let t = m.spec_key();
    (t.0 * (2 * h + 1) + (t.1 + h)) * 3 + t.2
}

/// Law: the cube of side `size` has at most `9 * box_width(size)` moves.
pub proof fn lemma_cube_moves_size(size: nat, moves: Seq<MoveId>)
    requires
        cube_move_list(size as int, moves),
    ensures
        moves.len() <= 9 * box_width(size as int),
{
    let h = cube_half(size as int);
    let w = 2 * h + 1;
    if h < 0 {
        if moves.len() > 0 {
            assert(moves[0].spec_valid_for(size as int));
        }
    } else {
        let key = |m: MoveId| move_key(m, h);
        assert forall|i: int| 0 <= i < moves.len() implies 0 <= #[trigger] key(moves[i]) < 3 * w * 3 by {
            assert(moves[i].spec_valid_for(size as int));
            let t = moves[i].spec_key();
            lemma_digits_range(t.0, t.1 + h, w, 3);
            lemma_digits_range(t.0 * w + t.1 + h, t.2, 3, 3 * w);
        }
        assert forall|i: int, j: int| 0 <= i < j < moves.len() implies key(#[trigger] moves[i]) != key(
            #[trigger] moves[j],
        ) by {
            assert(moves[i].spec_valid_for(size as int));
            assert(moves[j].spec_valid_for(size as int));
            assert(triple_lt(moves[i].spec_key(), moves[j].spec_key()));
            let a = moves[i].spec_key();
            let b = moves[j].spec_key();
            if key(moves[i]) == key(moves[j]) {
                lemma_digits_range(a.0, a.1 + h, w, 3);
                lemma_digits_range(b.0, b.1 + h, w, 3);
                lemma_digits_equal(a.0 * w + a.1 + h, a.2, b.0 * w + b.1 + h, b.2, 3);
                lemma_digits_equal(a.0, a.1 + h, b.0, b.1 + h, w);
            }
        }
        lemma_distinct_keys_bound(moves, key, 3 * w * 3);
    }
}

/// A turn keeps a point of the cube's surface on the surface.
proof fn lemma_rotate_keeps_surface(size: int, c: Cubie, axis: Axis, clockwise: bool)
    requires
        surface_point(size, c.position.x as int, c.position.y as int, c.position.z as int),
        0 <= cube_half(size),
    ensures
        ({
            let q = c.spec_rotate(axis, clockwise).position;
            surface_point(size, q.x as int, q.y as int, q.z as int)
        }),
{
}

/// Law: every move of the cube of side `size` takes the positions of the
/// solved cube's cubies to those same positions, each once (the positions
/// after the move are those before, rearranged), and keeps every cubie
/// facing along an axis.
pub proof fn lemma_move_permutes_cubies(size: nat, cubies: Seq<Cubie>, m: MoveId)
    requires
        solved_cube(size as int, cubies),
    ensures
        cubies.map_values(|c: Cubie| m.spec_apply(c).spec_zyx()).to_multiset() == cubies.map_values(
            |c: Cubie| c.spec_zyx(),
        ).to_multiset(),
        forall|i: int| 0 <= i < cubies.len() ==> #[trigger] m.spec_apply(cubies[i]).spec_faces_axis(),
{
    broadcast use vstd::seq_lib::to_multiset_contains;

    let h = cube_half(size as int);
    let before = cubies.map_values(|c: Cubie| c.spec_zyx());
    let after = cubies.map_values(|c: Cubie| m.spec_apply(c).spec_zyx());
    if cubies.len() > 0 {
        assert(cubies[0].spec_solved_cubie(size as int));
    }
    assert forall|i: int| 0 <= i < cubies.len() implies {
        &&& cubie_in_cube(#[trigger] cubies[i], h)
        &&& cubies[i].spec_valid()
        &&& cubie_in_cube(m.spec_apply(cubies[i]), h)
        &&& m.spec_inverse().spec_apply(m.spec_apply(cubies[i])) == cubies[i]
    } by {
        assert(cubies[i].spec_solved_cubie(size as int));
        lemma_move_keeps_cube(m, cubies[i], h);
        lemma_move_inverse(m, cubies[i]);
    }
    assert(before.no_duplicates()) by {
        assert forall|i: int, j: int| 0 <= i < before.len() && 0 <= j < before.len() && i != j implies before[i]
            != before[j] by {
            if i < j {
                assert(triple_lt(cubies[i].spec_zyx(), cubies[j].spec_zyx()));
            } else {
                assert(triple_lt(cubies[j].spec_zyx(), cubies[i].spec_zyx()));
            }
        }
    }
    assert(after.no_duplicates()) by {
        assert forall|i: int, j: int| 0 <= i < after.len() && 0 <= j < after.len() && i != j implies after[i]
            != after[j] by {
            let a = m.spec_apply(cubies[i]);
            let b = m.spec_apply(cubies[j]);
            if a.spec_zyx() == b.spec_zyx() {
                assert(a.position == b.position);
                assert(m.spec_inverse().spec_apply(a).position == m.spec_inverse().spec_apply(b).position);
                assert(before[i] == before[j]);
            }
        }
    }
    assert forall|i: int| 0 <= i < after.len() implies before.contains(#[trigger] after[i]) by {
        let c = cubies[i];
        assert(c.spec_solved_cubie(size as int));
        lemma_rotate_keeps_surface(size as int, c, m.axis, true);
        lemma_rotate_keeps_surface(size as int, c, m.axis, false);
        lemma_rotate_keeps_surface(size as int, c.spec_rotate(m.axis, true), m.axis, true);
        let q = m.spec_apply(c).position;
        assert(surface_point(size as int, q.x as int, q.y as int, q.z as int));
        let j = choose|j: int| 0 <= j < cubies.len() && #[trigger] cubies[j].spec_zyx() == (
            q.z as int,
            q.y as int,
            q.x as int,
        );
        assert(before[j] == after[i]);
    }
    after.unique_seq_to_set();
    before.unique_seq_to_set();
    assert(after.to_set().subset_of(before.to_set()));
    vstd::set_lib::lemma_subset_equality(after.to_set(), before.to_set());
    after.lemma_multiset_has_no_duplicates();
    before.lemma_multiset_has_no_duplicates();
    assert forall|t: (int, int, int)| #[trigger] after.to_multiset().count(t) == before.to_multiset().count(t) by {
        assert(after.to_set().contains(t) == before.to_set().contains(t));
    }
    assert(after.to_multiset() =~= before.to_multiset());
}

/// The unit vector along `axis`.
pub open spec fn unit(axis: Axis) -> (int, int, int) {
    match axis {
        Axis::X => (1, 0, 0),
        Axis::Y => (0, 1, 0),
        Axis::Z => (0, 0, 1),
    }
}

/// The dot product.
pub open spec fn dot(u: (int, int, int), v: (int, int, int)) -> int {
    u.0 * v.0 + u.1 * v.1 + u.2 * v.2
}

/// The cross product `u × v`.
pub open spec fn cross(u: (int, int, int), v: (int, int, int)) -> (int, int, int) {
    (u.1 * v.2 - u.2 * v.1, u.2 * v.0 - u.0 * v.2, u.0 * v.1 - u.1 * v.0)
}

/// `k` times `v`.
pub open spec fn times3(k: int, v: (int, int, int)) -> (int, int, int) {
    (k * v.0, k * v.1, k * v.2)
}

/// `u + v`.
pub open spec fn plus3(u: (int, int, int), v: (int, int, int)) -> (int, int, int) {
    (u.0 + v.0, u.1 + v.1, u.2 + v.2)
}

/// The sense of a clockwise turn about `axis`: +1 where it turns by +90
/// degrees by the right-hand rule (about x and z), -1 where by -90 degrees
/// (about y).
pub open spec fn clockwise_sense(axis: Axis) -> int {
    match axis {
        Axis::X => 1,
        Axis::Y => -1,
        Axis::Z => 1,
    }
}

/// The rotation of `v` by 90 degrees about `axis`, in the sense `s` (+1 or
/// -1), by Rodrigues' formula: the part along the axis stays, and the rest
/// is replaced by `s` times the axis crossed with `v`.
pub open spec fn quarter_rotation(v: (int, int, int), axis: Axis, s: int) -> (int, int, int) {
    plus3(times3(dot(v, unit(axis)), unit(axis)), times3(s, cross(unit(axis), v)))
}

/// The rotation of `v` by 180 degrees about `axis`: the part along the axis
/// stays, and the rest is negated.
pub open spec fn half_rotation(v: (int, int, int), axis: Axis) -> (int, int, int) {
    plus3(times3(2 * dot(v, unit(axis)), unit(axis)), times3(-1, v))
}

/// The rotation by which a move of rotation `r` turns its layer about `axis`.
pub open spec fn move_rotation(v: (int, int, int), axis: Axis, r: MoveRotations) -> (int, int, int) {
    match r {
        MoveRotations::Clockwise => quarter_rotation(v, axis, clockwise_sense(axis)),
        MoveRotations::Half => half_rotation(v, axis),
        MoveRotations::CounterClockwise => quarter_rotation(v, axis, -clockwise_sense(axis)),
    }
}

/// Law: on a vector without an `i32::MIN` coordinate, a quarter turn is the
/// rotation by 90 degrees about its axis (clockwise and counter-clockwise in
/// opposite senses), and two quarter turns the same way are the rotation by
/// 180 degrees, which is not the identity off the axis.
pub proof fn lemma_turn_is_rotation(v: Vec3d, axis: Axis, clockwise: bool)
    requires
        v.negatable(),
    ensures
        v.spec_rotate(axis, clockwise).spec_coords() == quarter_rotation(
            v.spec_coords(),
            axis,
            if clockwise {
                clockwise_sense(axis)
            } else {
                -clockwise_sense(axis)
            },
        ),
        v.spec_rotate(axis, clockwise).spec_rotate(axis, clockwise).spec_coords() == half_rotation(
            v.spec_coords(),
            axis,
        ),
{
    lemma_vec_rotate(v, axis, clockwise);
    let c = v.spec_coords();
    let r = v.spec_rotate(axis, clockwise).spec_coords();
    let rr = v.spec_rotate(axis, clockwise).spec_rotate(axis, clockwise).spec_coords();
    match axis {
        Axis::X => {
            assert(unit(axis) == (1int, 0int, 0int));
            assert(dot(c, unit(axis)) == c.0) by (nonlinear_arith)
                requires unit(axis) == (1int, 0int, 0int);
            assert(dot(c, unit(axis)) * 2 == 2 * c.0) by (nonlinear_arith)
                requires dot(c, unit(axis)) == c.0;
        },
        Axis::Y => {
            assert(dot(c, unit(axis)) == c.1) by (nonlinear_arith)
                requires unit(axis) == (0int, 1int, 0int);
        },
        Axis::Z => {
            assert(dot(c, unit(axis)) == c.2) by (nonlinear_arith)
                requires unit(axis) == (0int, 0int, 1int);
        },
    }
    assert(r == quarter_rotation(c, axis, if clockwise { clockwise_sense(axis) } else { -clockwise_sense(axis) })) by (nonlinear_arith)
        requires
            unit(axis) == (1int, 0int, 0int) ==> dot(c, unit(axis)) == c.0,
            unit(axis) == (0int, 1int, 0int) ==> dot(c, unit(axis)) == c.1,
            unit(axis) == (0int, 0int, 1int) ==> dot(c, unit(axis)) == c.2,
            unit(axis) == (1int, 0int, 0int) ==> r == (c.0, if clockwise { -c.2 } else { c.2 }, if clockwise { c.1 } else { -c.1 }),
            unit(axis) == (0int, 1int, 0int) ==> r == (if clockwise { -c.2 } else { c.2 }, c.1, if clockwise { c.0 } else { -c.0 }),
            unit(axis) == (0int, 0int, 1int) ==> r == (if clockwise { -c.1 } else { c.1 }, if clockwise { c.0 } else { -c.0 }, c.2),
            clockwise_sense(axis) == (if unit(axis) == (0int, 1int, 0int) { -1int } else { 1int }),
            unit(axis) == (1int, 0int, 0int) || unit(axis) == (0int, 1int, 0int) || unit(axis) == (0int, 0int, 1int),
    ;
    assert(rr == half_rotation(c, axis)) by (nonlinear_arith)
        requires
            unit(axis) == (1int, 0int, 0int) ==> dot(c, unit(axis)) == c.0,
            unit(axis) == (0int, 1int, 0int) ==> dot(c, unit(axis)) == c.1,
            unit(axis) == (0int, 0int, 1int) ==> dot(c, unit(axis)) == c.2,
            unit(axis) == (1int, 0int, 0int) ==> rr == (c.0, -c.1, -c.2),
            unit(axis) == (0int, 1int, 0int) ==> rr == (-c.0, c.1, -c.2),
            unit(axis) == (0int, 0int, 1int) ==> rr == (-c.0, -c.1, c.2),
            unit(axis) == (1int, 0int, 0int) || unit(axis) == (0int, 1int, 0int) || unit(axis) == (0int, 0int, 1int),
    ;
}

/// The dot product with an axis' unit vector picks that coordinate.
proof fn lemma_dot_unit(c: (int, int, int), axis: Axis)
    ensures
        dot(c, unit(axis)) == match axis {
            Axis::X => c.0,
            Axis::Y => c.1,
            Axis::Z => c.2,
        },
{
    match axis {
        Axis::X => {
            assert(dot(c, (1int, 0int, 0int)) == c.0) by (nonlinear_arith);
        },
        Axis::Y => {
            assert(dot(c, (0int, 1int, 0int)) == c.1) by (nonlinear_arith);
        },
        Axis::Z => {
            assert(dot(c, (0int, 0int, 1int)) == c.2) by (nonlinear_arith);
        },
    }
}

/// Law: a move changes only the cubies of its layer, those whose position
/// lies at the move's layer along its axis; each of these it turns, position
/// and facing, by the move's rotation about its axis (a quarter turn one way
/// or the other, or a half turn).
pub proof fn lemma_move_turns_its_layer(m: MoveId, c: Cubie)
    requires
        c.spec_valid(),
    ensures
        dot(c.spec_position(), unit(m.spec_axis())) != m.spec_layer() ==> m.spec_apply(c) == c,
        dot(c.spec_position(), unit(m.spec_axis())) == m.spec_layer() ==> {
            &&& m.spec_apply(c).spec_position() == move_rotation(
                c.spec_position(),
                m.spec_axis(),
                m.spec_rotation(),
            )
            &&& m.spec_apply(c).spec_orientation() == move_rotation(
                c.spec_orientation(),
                m.spec_axis(),
                m.spec_rotation(),
            )
        },
{
    lemma_dot_unit(c.spec_position(), m.axis);
    lemma_turn_is_rotation(c.position, m.axis, true);
    lemma_turn_is_rotation(c.position, m.axis, false);
    lemma_turn_is_rotation(c.orientation, m.axis, true);
    lemma_turn_is_rotation(c.orientation, m.axis, false);
}

} // verus!
