//! The generator: starting from a grid with every wall closed, it opens one
//! wall after another until every room can be reached from every other.

use vstd::prelude::*;
use crate::connectivity::build_connectivity;
use crate::connectivity::connected;
use crate::connectivity::fully_connected;
use crate::connectivity::is_connected;
use crate::connectivity::labels_agree_iff_connected;
use crate::connectivity::lemma_connected_extend;
use crate::connectivity::lemma_connected_reflexive;
use crate::connectivity::lemma_connected_symmetric;
use crate::connectivity::lemma_connected_transitive;
use crate::connectivity::passage;
use crate::direction::Direction;
use crate::direction::opposite_is_involution;
use crate::grid::DungeonSpecification;
use crate::grid::Position;
use crate::grid::Room;
use crate::grid::lemma_index_in_range;
use crate::grid::lemma_index_injective;
use crate::grid::lemma_index_position_at;
use crate::grid::lemma_neighbor_round_trip;
use crate::grid::lemma_position_at_index;
use crate::grid::open_at;
use crate::grid::well_formed;
use crate::random::draw_ratio;
use crate::random::draw_usize;
use rand::rngs::StdRng;

verus! {

/// A wall that the generator may open: the face of the room at `position`
/// in `direction`.
#[derive(Clone, Copy, Debug, PartialEq, Eq, Structural)]
pub struct Wall {
    pub position: Position,
    pub direction: Direction,
}

/// The forward direction with the given rank: Up, North, East.
pub open spec fn forward_direction(rank: int) -> Direction {
    if rank == 0 {
        Direction::Up
    } else if rank == 1 {
        Direction::North
    } else {
        Direction::East
    }
}

/// Number of forward directions.
pub const FORWARD_COUNT: usize = 3;

impl Wall {
    /// The wall separates two rooms of the grid and is named from the side
    /// of the room with the lower coordinate, so that each pair of adjacent
    /// rooms has exactly one candidate wall.
    pub open spec fn is_candidate(&self, spec: &DungeonSpecification) -> bool {
        &&& self.position.in_bounds(spec)
        &&& self.direction.is_forward()
        &&& self.position.neighbor(self.direction, spec) is Some
    }

    /// The room on the other side of the wall.
    pub open spec fn far_side(&self, spec: &DungeonSpecification) -> Position {
        self.position.neighbor(self.direction, spec).unwrap()
    }

    /// Rank of the wall in the order in which the candidates are listed:
    /// by the index of its room, then by its direction.
    pub open spec fn slot(&self, spec: &DungeonSpecification) -> int {
        3 * self.position.spec_index(spec) + if self.direction == Direction::Up {
            0int
        } else if self.direction == Direction::North {
            1int
        } else {
            2int
        }
    }
}

/// The wall that stands at `slot` in the order of the candidates, whether
/// the grid has a room behind it or not.
pub open spec fn wall_slot(spec: &DungeonSpecification, slot: int) -> Wall {
    Wall { position: spec.position_at(slot / 3), direction: forward_direction(slot % 3) }
}

/// The first `count` slots.
pub open spec fn wall_slots(spec: &DungeonSpecification, count: int) -> Seq<Wall> {
    Seq::new(count as nat, |slot: int| wall_slot(spec, slot))
}

/// The test that selects the candidate walls of `spec`.
pub open spec fn candidate_in(spec: DungeonSpecification) -> spec_fn(Wall) -> bool {
    |wall: Wall| wall.is_candidate(&spec)
}

/// Every candidate wall of the grid, once, in the order of its slot.
pub open spec fn all_walls(spec: &DungeonSpecification) -> Seq<Wall> {
    wall_slots(spec, 3 * spec.room_count()).filter(candidate_in(*spec))
}

/// The two rooms beside the wall are not connected.
pub open spec fn separates(spec: &DungeonSpecification, rooms: Seq<Room>, wall: Wall) -> bool {
    !connected(spec, rooms, wall.position, wall.far_side(spec))
}

/// The places in `walls`, below `count`, of the walls that separate two
/// components, in ascending order.
pub open spec fn separating_below(
    spec: &DungeonSpecification,
    rooms: Seq<Room>,
    walls: Seq<Wall>,
    count: int,
) -> Seq<int>
    decreases count,
{
    if count <= 0 {
        Seq::empty()
    } else {
        let lower = separating_below(spec, rooms, walls, count - 1);
        if separates(spec, rooms, walls[count - 1]) {
            lower.push(count - 1)
        } else {
            lower
        }
    }
}

/// What a generator holds: the grid, the walls that are still closed, and
/// whether the grid is connected.
pub ghost struct GeneratorView {
    pub spec: DungeonSpecification,
    pub rooms: Seq<Room>,
    pub walls: Seq<Wall>,
    pub done: bool,
}

impl GeneratorView {
    /// The grid is well formed, `walls` lists exactly the candidate walls
    /// that are closed, each of them once, and `done` says whether the grid
    /// is fully connected.
    pub open spec fn consistent(&self) -> bool {
        &&& well_formed(&self.spec, self.rooms)
        &&& forall|k: int|
            0 <= k < self.walls.len() ==> (#[trigger] self.walls[k]).is_candidate(&self.spec)
                && !open_at(&self.spec, self.rooms, self.walls[k].position, self.walls[k].direction)
        &&& forall|j: int, k: int|
            0 <= j < k < self.walls.len() ==> #[trigger] self.walls[j] != #[trigger] self.walls[k]
        &&& forall|wall: Wall| #[trigger]
            wall.is_candidate(&self.spec) ==> self.walls.contains(wall) || open_at(
                &self.spec,
                self.rooms,
                wall.position,
                wall.direction,
            )
        &&& self.done == fully_connected(&self.spec, self.rooms)
    }

    /// The places in `walls` of the walls that separate two components.
    pub open spec fn separating(&self) -> Seq<int> {
        separating_below(&self.spec, self.rooms, self.walls, self.walls.len() as int)
    }

    /// The place in `walls` of the wall that a step opens. A biased step
    /// takes one of the separating walls, where there is one; any other
    /// step takes one of all the remaining walls. `pick` selects the wall by
    /// its remainder.
    pub open spec fn chosen(&self, biased: bool, pick: usize) -> int {
        if biased && self.separating().len() > 0 {
            self.separating()[pick as int % self.separating().len() as int]
        } else {
            pick as int % self.walls.len() as int
        }
    }

    /// The face of room `p` in direction `d` is open once `wall` has been
    /// opened: it was open before, or it is one of the two faces of `wall`.
    pub open spec fn open_after(&self, wall: Wall, p: Position, d: Direction) -> bool {
        ||| open_at(&self.spec, self.rooms, p, d)
        ||| (p == wall.position && d == wall.direction)
        ||| (p == wall.far_side(&self.spec) && d == wall.direction.opposite())
    }

    /// `next` is this state after the wall at place `index` has been opened:
    /// the wall has left the list and both its faces are open, nothing else
    /// has changed.
    pub open spec fn opens(&self, index: int, next: GeneratorView) -> bool {
        &&& next.spec == self.spec
        &&& next.walls == self.walls.remove(index)
        &&& next.rooms.len() == self.rooms.len()
        &&& forall|p: Position, d: Direction|
            p.in_bounds(&self.spec) ==> #[trigger] open_at(&next.spec, next.rooms, p, d)
                == self.open_after(self.walls[index], p, d)
    }

    /// The state of a generator that has not taken a step: every face of
    /// every room of `spec` is closed and every candidate wall is listed.
    pub open spec fn is_fresh(&self, spec: DungeonSpecification) -> bool {
        &&& self.spec == spec
        &&& self.walls == all_walls(&spec)
        &&& self.rooms.len() == spec.room_count()
        &&& forall|i: int, d: Direction|
            0 <= i < self.rooms.len() ==> !#[trigger] self.rooms[i].open(d)
        &&& self.done == fully_connected(&spec, self.rooms)
    }

    /// `next` follows from this state by one step: the grid is not connected
    /// yet, and for some pair of draws the wall that they choose is opened.
    pub open spec fn steps_to(&self, next: GeneratorView) -> bool {
        &&& !self.done
        &&& next.done == fully_connected(&next.spec, next.rooms)
        &&& exists|biased: bool, pick: usize| #[trigger]
            self.opens(self.chosen(biased, pick), next)
    }

    /// `last` follows from this state by `steps` steps.
    pub open spec fn reaches(&self, last: GeneratorView, steps: nat) -> bool
        decreases steps,
    {
        if steps == 0 {
            *self == last
        } else {
            exists|middle: GeneratorView|
                self.reaches(middle, (steps - 1) as nat) && #[trigger] middle.steps_to(last)
        }
    }

    /// This is what a generator for `spec` can end with: a connected grid
    /// that some number of steps leads to from the fresh state.
    pub open spec fn is_outcome(&self, spec: DungeonSpecification) -> bool {
        &&& self.consistent()
        &&& self.done
        &&& exists|fresh: GeneratorView, steps: nat|
            fresh.is_fresh(spec) && #[trigger] fresh.reaches(*self, steps)
    }
}

/// In a grid whose candidate walls are all open every room can be reached
/// from the room at the origin.
proof fn lemma_reached_from_origin(spec: DungeonSpecification, rooms: Seq<Room>, p: Position)
    requires
        spec.valid(),
        p.in_bounds(&spec),
        forall|wall: Wall| #[trigger]
            wall.is_candidate(&spec) ==> open_at(&spec, rooms, wall.position, wall.direction),
    ensures
        connected(&spec, rooms, Position { x: 0, y: 0, z: 0 }, p),
    decreases p.x + p.y + p.z,
{
    let origin = Position { x: 0, y: 0, z: 0 };
    if p == origin {
        lemma_connected_reflexive(spec, rooms, p);
    } else {
        let wall = if p.x > 0 {
            Wall {
                position: Position { x: (p.x - 1) as u16, y: p.y, z: p.z },
                direction: Direction::East,
            }
        } else if p.y > 0 {
            Wall {
                position: Position { x: p.x, y: (p.y - 1) as u16, z: p.z },
                direction: Direction::Up,
            }
        } else {
            Wall {
                position: Position { x: p.x, y: p.y, z: (p.z - 1) as u16 },
                direction: Direction::North,
            }
        };
        assert(wall.is_candidate(&spec));
        assert(wall.far_side(&spec) == p);
        lemma_reached_from_origin(spec, rooms, wall.position);
        assert(open_at(&spec, rooms, wall.position, wall.direction));
        assert(passage(&spec, rooms, wall.position, p));
        lemma_connected_extend(spec, rooms, origin, wall.position, p);
    }
}

/// A well-formed grid whose candidate walls are all open is fully
/// connected.
pub proof fn open_grid_is_connected(spec: DungeonSpecification, rooms: Seq<Room>)
    requires
        well_formed(&spec, rooms),
        forall|wall: Wall| #[trigger]
            wall.is_candidate(&spec) ==> open_at(&spec, rooms, wall.position, wall.direction),
    ensures
        fully_connected(&spec, rooms),
{
    let origin = Position { x: 0, y: 0, z: 0 };
    assert forall|p: Position, q: Position|
        p.in_bounds(&spec) && q.in_bounds(&spec) implies #[trigger] connected(
        &spec,
        rooms,
        p,
        q,
    ) by {
        lemma_reached_from_origin(spec, rooms, p);
        lemma_reached_from_origin(spec, rooms, q);
        lemma_connected_symmetric(spec, rooms, origin, p);
        lemma_connected_transitive(spec, rooms, p, origin, q);
    }
}

/// While the grid is not connected the generator has a wall left to open.
pub proof fn unfinished_has_walls(state: GeneratorView)
    requires
        state.consistent(),
        !state.done,
    ensures
        state.walls.len() > 0,
{
    if state.walls.len() == 0 {
        assert forall|wall: Wall| #[trigger] wall.is_candidate(&state.spec) implies open_at(
            &state.spec,
            state.rooms,
            wall.position,
            wall.direction,
        ) by {
            assert(!state.walls.contains(wall));
        }
        open_grid_is_connected(state.spec, state.rooms);
    }
}

/// The two faces of every wall agree in every state of the generator.
pub proof fn faces_agree_throughout(state: GeneratorView, p: Position, d: Direction)
    requires
        state.consistent(),
        p.in_bounds(&state.spec),
        p.neighbor(d, &state.spec) is Some,
    ensures
        open_at(&state.spec, state.rooms, p, d) == open_at(
            &state.spec,
            state.rooms,
            p.neighbor(d, &state.spec).unwrap(),
            d.opposite(),
        ),
{
    crate::grid::lemma_faces_agree(state.spec, state.rooms, p, d);
}

/// The two states of a generator.
#[derive(Clone, Copy, Debug, PartialEq, Eq, Structural)]
pub enum GeneratorState {
    /// Some room cannot be reached from some other: walls remain to be
    /// opened.
    Generating,
    /// Every room can be reached from every other.
    Done,
}

/// How often a step opens a wall between two components rather than any
/// wall: `numerator` times in `denominator` steps. A higher ratio gives
/// layouts closer to a tree, a lower one gives more loops and needs more
/// steps.
#[derive(Clone, Copy, Debug)]
pub struct SeparationBias {
    numerator: u32,
    denominator: u32,
}

impl SeparationBias {
    /// Steps out of `denominator` that favor a separating wall.
    pub closed spec fn numerator(&self) -> int {
        self.numerator as int
    }

    /// Steps that `numerator` is counted in.
    pub closed spec fn denominator(&self) -> int {
        self.denominator as int
    }

    /// The ratio lies between zero and one.
    pub open spec fn valid(&self) -> bool {
        0 <= self.numerator() <= self.denominator() <= u32::MAX && 0 < self.denominator()
    }

    /// A bias of `numerator` in `denominator`, where that is a ratio
    /// between zero and one.
    pub fn new(numerator: u32, denominator: u32) -> (r: Option<SeparationBias>)
        ensures
            r is Some <==> denominator > 0 && numerator <= denominator,
            r matches Some(bias) ==> bias.valid() && bias.numerator() == numerator
                && bias.denominator() == denominator,
    {
        if denominator > 0 && numerator <= denominator {
            Some(SeparationBias { numerator, denominator })
        } else {
            None
        }
    }
}

impl Default for SeparationBias {
    /// One step in ten.
    fn default() -> (r: SeparationBias)
        ensures
            r.valid(),
            r.numerator() == 1,
            r.denominator() == 10,
    {
        SeparationBias { numerator: 1, denominator: 10 }
    }
}

/// A dungeon under construction.
pub struct Generator {
    spec: DungeonSpecification,
    rooms: Vec<Room>,
    walls: Vec<Wall>,
    done: bool,
}

impl View for Generator {
    type V = GeneratorView;

    closed spec fn view(&self) -> GeneratorView {
        GeneratorView { spec: self.spec, rooms: self.rooms@, walls: self.walls@, done: self.done }
    }
}

/// The forward direction with the given rank.
fn forward(rank: usize) -> (r: Direction)
    requires
        rank < FORWARD_COUNT,
    ensures
        r == forward_direction(rank as int),
{
    if rank == 0 {
        Direction::Up
    } else if rank == 1 {
        Direction::North
    } else {
        Direction::East
    }
}

proof fn lemma_slots_extend(spec: DungeonSpecification, count: int)
    requires
        0 <= count,
    ensures
        wall_slots(&spec, count + 1).filter(candidate_in(spec)) == if wall_slot(
            &spec,
            count,
        ).is_candidate(&spec) {
            wall_slots(&spec, count).filter(candidate_in(spec)).push(wall_slot(&spec, count))
        } else {
            wall_slots(&spec, count).filter(candidate_in(spec))
        },
{
    reveal(Seq::filter);
    assert(wall_slots(&spec, count + 1).drop_last() =~= wall_slots(&spec, count));
}

/// The candidates among the first `count` slots: each is listed at its
/// place in the order of the slots, and none is left out.
proof fn lemma_walls_below(spec: DungeonSpecification, count: int)
    requires
        spec.valid(),
        0 <= count <= 3 * spec.room_count(),
    ensures
        forall|j: int|
            0 <= j < wall_slots(&spec, count).filter(candidate_in(spec)).len() ==> (
            #[trigger] wall_slots(&spec, count).filter(candidate_in(spec))[j]).is_candidate(&spec)
                && wall_slots(&spec, count).filter(candidate_in(spec))[j].slot(&spec) < count,
        forall|i: int, j: int|
            0 <= i < j < wall_slots(&spec, count).filter(candidate_in(spec)).len() ==> (
            #[trigger] wall_slots(&spec, count).filter(candidate_in(spec))[i]).slot(&spec) < (
            #[trigger] wall_slots(&spec, count).filter(candidate_in(spec))[j]).slot(&spec),
        forall|wall: Wall| #[trigger]
            wall.is_candidate(&spec) && wall.slot(&spec) < count ==> wall_slots(
                &spec,
                count,
            ).filter(candidate_in(spec)).contains(wall),
    decreases count,
{
    let listed = wall_slots(&spec, count).filter(candidate_in(spec));
    if count == 0 {
        reveal(Seq::filter);
        assert(wall_slots(&spec, 0) =~= Seq::<Wall>::empty());
    } else {
        let lower = wall_slots(&spec, count - 1).filter(candidate_in(spec));
        let added = wall_slot(&spec, count - 1);
        lemma_walls_below(spec, count - 1);
        lemma_slots_extend(spec, count - 1);
        lemma_index_position_at(spec, (count - 1) / 3);
        assert(added.slot(&spec) == count - 1);
        assert forall|wall: Wall| #[trigger]
            wall.is_candidate(&spec) && wall.slot(&spec) < count implies listed.contains(wall) by {
            if wall.slot(&spec) < count - 1 {
                let j = choose|j: int| 0 <= j < lower.len() && lower[j] == wall;
                assert(listed[j] == wall);
            } else {
                lemma_index_injective(spec, wall.position, added.position);
                assert(wall == added);
                assert(listed[lower.len() as int] == wall);
            }
        }
    }
}

/// The list of all walls holds the candidate walls and nothing else, each
/// of them once.
pub proof fn all_walls_are_the_candidates(spec: DungeonSpecification)
    requires
        spec.valid(),
    ensures
        all_walls(&spec).no_duplicates(),
        forall|wall: Wall| #[trigger] all_walls(&spec).contains(wall) <==> wall.is_candidate(&spec),
{
    let count = 3 * spec.room_count();
    crate::grid::lemma_room_count_positive(spec);
    lemma_walls_below(spec, count);
    let listed = all_walls(&spec);
    assert forall|wall: Wall| #[trigger] listed.contains(wall) <==> wall.is_candidate(&spec) by {
        if wall.is_candidate(&spec) {
            lemma_index_in_range(spec, wall.position);
        }
        if listed.contains(wall) {
            let j = choose|j: int| 0 <= j < listed.len() && listed[j] == wall;
            assert(listed[j].is_candidate(&spec));
        }
    }
    assert forall|i: int, j: int| 0 <= i < listed.len() && 0 <= j < listed.len() && i
        != j implies listed[i] != listed[j] by {
        if i < j {
            assert(listed[i].slot(&spec) < listed[j].slot(&spec));
        } else {
            assert(listed[j].slot(&spec) < listed[i].slot(&spec));
        }
    }
}

/// Number of pairs of adjacent rooms in the grid: along each axis, one
/// pair for every room that is not the last one along that axis.
pub open spec fn adjacent_pairs(spec: &DungeonSpecification) -> int {
    (spec.wide() - 1) * spec.tall() * spec.deep() + spec.wide() * (spec.tall() - 1) * spec.deep()
        + spec.wide() * spec.tall() * (spec.deep() - 1)
}

/// Number of candidate walls of the room at `p`.
spec fn forward_neighbors(spec: &DungeonSpecification, p: Position) -> int {
    (if p.y + 1 < spec.tall() {
        1int
    } else {
        0int
    }) + (if p.z + 1 < spec.deep() {
        1int
    } else {
        0int
    }) + (if p.x + 1 < spec.wide() {
        1int
    } else {
        0int
    })
}

/// Number of candidate walls of the rooms whose index lies below that of
/// `p`, counted direction by direction.
spec fn walls_before(spec: &DungeonSpecification, p: Position) -> int {
    let (w, t, d) = (spec.wide(), spec.tall(), spec.deep());
    let up = p.x * (t - 1) * d + p.y * d + if p.y + 1 < t {
        p.z as int
    } else {
        0int
    };
    let north = (p.x * t + p.y) * (d - 1) + p.z;
    let east = p.x * t * d + if p.x + 1 < w {
        p.y * d + p.z
    } else {
        0int
    };
    up + north + east
}

/// The room that follows `p` in the order of the index.
spec fn successor(spec: &DungeonSpecification, p: Position) -> Position {
    if p.z + 1 < spec.deep() {
        Position { x: p.x, y: p.y, z: (p.z + 1) as u16 }
    } else if p.y + 1 < spec.tall() {
        Position { x: p.x, y: (p.y + 1) as u16, z: 0 }
    } else {
        Position { x: (p.x + 1) as u16, y: 0, z: 0 }
    }
}

proof fn lemma_successor(spec: DungeonSpecification, p: Position)
    requires
        spec.valid(),
        p.in_bounds(&spec),
        p.spec_index(&spec) + 1 < spec.room_count(),
    ensures
        successor(&spec, p).in_bounds(&spec),
        successor(&spec, p).spec_index(&spec) == p.spec_index(&spec) + 1,
        walls_before(&spec, successor(&spec, p)) == walls_before(&spec, p) + forward_neighbors(
            &spec,
            p,
        ),
{
    let (w, t, d) = (spec.wide(), spec.tall(), spec.deep());
    let (x, y, z) = (p.x as int, p.y as int, p.z as int);
    if z + 1 < d {
    } else if y + 1 < t {
        assert((x * t + (y + 1)) * d == (x * t + y) * d + d) by (nonlinear_arith);
        assert((y + 1) * d == y * d + d) by (nonlinear_arith);
        assert((x * t + (y + 1)) * (d - 1) == (x * t + y) * (d - 1) + (d - 1)) by (nonlinear_arith);
    } else {
        assert(x + 1 < w) by (nonlinear_arith)
            requires
                0 <= x < w,
                y == t - 1,
                z == d - 1,
                0 < t,
                0 < d,
                (x * t + y) * d + z + 1 < w * t * d,
        ;
        assert(((x + 1) * t + 0) * d == (x * t + y) * d + z + 1) by (nonlinear_arith)
            requires
                y == t - 1,
                z == d - 1,
        ;
        assert((x + 1) * (t - 1) * d + 0 * d == x * (t - 1) * d + y * d) by (nonlinear_arith)
            requires
                y == t - 1,
        ;
        assert(((x + 1) * t + 0) * (d - 1) == (x * t + y) * (d - 1) + z) by (nonlinear_arith)
            requires
                y == t - 1,
                z == d - 1,
        ;
        assert((x + 1) * t * d == x * t * d + (y * d + z) + 1) by (nonlinear_arith)
            requires
                y == t - 1,
                z == d - 1,
        ;
        assert(0 * d == 0) by (nonlinear_arith);
    }
}

proof fn lemma_room_adds_its_walls(spec: DungeonSpecification, k: int)
    requires
        spec.valid(),
        0 <= k < spec.room_count(),
    ensures
        wall_slots(&spec, 3 * k + 3).filter(candidate_in(spec)).len() == wall_slots(
            &spec,
            3 * k,
        ).filter(candidate_in(spec)).len() + forward_neighbors(&spec, spec.position_at(k)),
{
    let p = spec.position_at(k);
    lemma_index_position_at(spec, k);
    lemma_slots_extend(spec, 3 * k);
    lemma_slots_extend(spec, 3 * k + 1);
    lemma_slots_extend(spec, 3 * k + 2);
    assert(wall_slot(&spec, 3 * k) == Wall { position: p, direction: Direction::Up });
    assert(wall_slot(&spec, 3 * k + 1) == Wall { position: p, direction: Direction::North });
    assert(wall_slot(&spec, 3 * k + 2) == Wall { position: p, direction: Direction::East });
}

proof fn lemma_walls_counted(spec: DungeonSpecification, k: int)
    requires
        spec.valid(),
        0 <= k < spec.room_count(),
    ensures
        wall_slots(&spec, 3 * k).filter(candidate_in(spec)).len() == walls_before(
            &spec,
            spec.position_at(k),
        ),
    decreases k,
{
    let (t, d) = (spec.tall(), spec.deep());
    if k == 0 {
        let origin = Position { x: 0, y: 0, z: 0 };
        assert((0 * t + 0) * d + 0 == 0 && 0 * (t - 1) * d + 0 * d == 0 && (0 * t + 0) * (d - 1)
            == 0 && 0 * t * d == 0) by (nonlinear_arith);
        lemma_position_at_index(spec, origin);
        reveal(Seq::filter);
        assert(wall_slots(&spec, 0) =~= Seq::<Wall>::empty());
    } else {
        let p = spec.position_at(k - 1);
        lemma_walls_counted(spec, k - 1);
        lemma_room_adds_its_walls(spec, k - 1);
        lemma_index_position_at(spec, k - 1);
        lemma_successor(spec, p);
        lemma_position_at_index(spec, successor(&spec, p));
    }
}

/// The grid has as many candidate walls as pairs of adjacent rooms.
pub proof fn wall_count_is_adjacent_pairs(spec: DungeonSpecification)
    requires
        spec.valid(),
    ensures
        all_walls(&spec).len() == adjacent_pairs(&spec),
{
    let (w, t, d) = (spec.wide(), spec.tall(), spec.deep());
    let last = Position { x: (w - 1) as u16, y: (t - 1) as u16, z: (d - 1) as u16 };
    let k = spec.room_count() - 1;
    assert(last.spec_index(&spec) == k) by (nonlinear_arith)
        requires
            last.spec_index(&spec) == ((w - 1) * t + (t - 1)) * d + (d - 1),
            k == w * t * d - 1,
    ;
    crate::grid::lemma_room_count_positive(spec);
    lemma_position_at_index(spec, last);
    lemma_walls_counted(spec, k);
    lemma_room_adds_its_walls(spec, k);
    assert(walls_before(&spec, last) == adjacent_pairs(&spec)) by (nonlinear_arith)
        requires
            walls_before(&spec, last) == (w - 1) * (t - 1) * d + (t - 1) * d + 0 + (((w - 1) * t
                + (t - 1)) * (d - 1) + (d - 1)) + ((w - 1) * t * d + 0),
            adjacent_pairs(&spec) == (w - 1) * t * d + w * (t - 1) * d + w * t * (d - 1),
    ;
}

/// Two adjacent rooms share one candidate wall: of the two faces between
/// them, exactly one names a candidate.
pub proof fn one_wall_per_adjacent_pair(spec: DungeonSpecification, p: Position, d: Direction)
    requires
        spec.valid(),
        p.in_bounds(&spec),
        p.neighbor(d, &spec) is Some,
    ensures
        (Wall { position: p, direction: d }).is_candidate(&spec) != (Wall {
            position: p.neighbor(d, &spec).unwrap(),
            direction: d.opposite(),
        }).is_candidate(&spec),
{
    lemma_neighbor_round_trip(spec, p, d);
    crate::direction::forward_or_opposite_forward(d);
}

/// A state that lists all walls of a grid of closed rooms is consistent.
proof fn lemma_fresh_is_consistent(spec: DungeonSpecification, state: GeneratorView)
    requires
        spec.indexable(),
        state.is_fresh(spec),
    ensures
        state.consistent(),
{
    all_walls_are_the_candidates(spec);
    assert forall|p: Position, d: Direction| p.in_bounds(&spec) implies !#[trigger] open_at(
        &spec,
        state.rooms,
        p,
        d,
    ) by {
        lemma_index_in_range(spec, p);
    }
    assert forall|k: int| 0 <= k < state.walls.len() implies (#[trigger] state.walls[k]).is_candidate(
        &spec,
    ) && !open_at(&spec, state.rooms, state.walls[k].position, state.walls[k].direction) by {
        assert(state.walls.contains(state.walls[k]));
    }
}

proof fn lemma_separating_bounded(
    spec: DungeonSpecification,
    rooms: Seq<Room>,
    walls: Seq<Wall>,
    count: int,
)
    requires
        0 <= count <= walls.len(),
    ensures
        separating_below(&spec, rooms, walls, count).len() <= count,
        forall|j: int|
            0 <= j < separating_below(&spec, rooms, walls, count).len() ==> 0
                <= #[trigger] separating_below(&spec, rooms, walls, count)[j] < count,
    decreases count,
{
    if count > 0 {
        lemma_separating_bounded(spec, rooms, walls, count - 1);
    }
}

/// Opening a wall of the list keeps the state consistent.
pub proof fn opening_keeps_consistent(before: GeneratorView, index: int, after: GeneratorView)
    requires
        before.consistent(),
        0 <= index < before.walls.len(),
        before.opens(index, after),
        after.done == fully_connected(&after.spec, after.rooms),
    ensures
        after.consistent(),
        after.walls.len() == before.walls.len() - 1,
{
    let spec = before.spec;
    let wall = before.walls[index];
    let far = wall.far_side(&spec);
    before.walls.remove_ensures(index);
    lemma_neighbor_round_trip(spec, wall.position, wall.direction);
    opposite_is_involution(wall.direction);
    assert forall|p: Position, d: Direction|
        p.in_bounds(&spec) && #[trigger] open_at(&spec, after.rooms, p, d) implies {
        &&& p.neighbor(d, &spec) is Some
        &&& open_at(&spec, after.rooms, p.neighbor(d, &spec).unwrap(), d.opposite())
    } by {
        assert(before.open_after(wall, p, d));
        if open_at(&spec, before.rooms, p, d) {
            let q = p.neighbor(d, &spec).unwrap();
            lemma_neighbor_round_trip(spec, p, d);
            assert(before.open_after(wall, q, d.opposite()));
        } else if p == wall.position && d == wall.direction {
            assert(before.open_after(wall, far, d.opposite()));
        } else {
            assert(before.open_after(wall, wall.position, wall.direction));
        }
    }
    assert forall|k: int| 0 <= k < after.walls.len() implies (#[trigger] after.walls[k]).is_candidate(
        &spec,
    ) && !open_at(&spec, after.rooms, after.walls[k].position, after.walls[k].direction) by {
        let source = if k < index {
            k
        } else {
            k + 1
        };
        assert(after.walls[k] == before.walls[source]);
        if source < index {
            assert(before.walls[source] != before.walls[index]);
        } else {
            assert(before.walls[index] != before.walls[source]);
        }
        assert(!before.open_after(wall, after.walls[k].position, after.walls[k].direction));
    }
    assert forall|j: int, k: int| 0 <= j < k < after.walls.len() implies #[trigger] after.walls[j]
        != #[trigger] after.walls[k] by {
        let from_j = if j < index {
            j
        } else {
            j + 1
        };
        let from_k = if k < index {
            k
        } else {
            k + 1
        };
        assert(before.walls[from_j] != before.walls[from_k]);
    }
    assert forall|other: Wall| #[trigger] other.is_candidate(&spec) implies after.walls.contains(
        other,
    ) || open_at(&spec, after.rooms, other.position, other.direction) by {
        if other == wall {
            assert(before.open_after(wall, other.position, other.direction));
        } else if before.walls.contains(other) {
            let k = choose|k: int| 0 <= k < before.walls.len() && before.walls[k] == other;
            let target = if k < index {
                k
            } else {
                k - 1
            };
            assert(after.walls[target] == other);
        } else {
            assert(before.open_after(wall, other.position, other.direction));
        }
    }
}

/// The wall that a step chooses is one of the list.
pub proof fn chosen_wall_is_listed(state: GeneratorView, biased: bool, pick: usize)
    requires
        state.consistent(),
        !state.done,
    ensures
        0 <= state.chosen(biased, pick) < state.walls.len(),
{
    unfinished_has_walls(state);
    lemma_separating_bounded(state.spec, state.rooms, state.walls, state.walls.len() as int);
}

/// Whatever steps a generator takes from a consistent state, it stays
/// consistent, keeps its specification, and has one wall less for each
/// step.
pub proof fn steps_keep_consistent(first: GeneratorView, last: GeneratorView, steps: nat)
    requires
        first.consistent(),
        first.reaches(last, steps),
    ensures
        last.consistent(),
        last.spec == first.spec,
        last.walls.len() + steps == first.walls.len(),
    decreases steps,
{
    if steps > 0 {
        let middle = choose|middle: GeneratorView|
            first.reaches(middle, (steps - 1) as nat) && #[trigger] middle.steps_to(last);
        steps_keep_consistent(first, middle, (steps - 1) as nat);
        let (biased, pick) = choose|biased: bool, pick: usize| #[trigger]
            middle.opens(middle.chosen(biased, pick), last);
        chosen_wall_is_listed(middle, biased, pick);
        opening_keeps_consistent(middle, middle.chosen(biased, pick), last);
    }
}

/// A generator that starts with every wall closed is connected after no
/// more steps than the grid has pairs of adjacent rooms, and in every state
/// on the way the two faces of every wall agree.
pub proof fn fresh_generator_stays_within_bounds(
    spec: DungeonSpecification,
    fresh: GeneratorView,
    last: GeneratorView,
    steps: nat,
)
    requires
        spec.indexable(),
        fresh.is_fresh(spec),
        fresh.reaches(last, steps),
    ensures
        last.consistent(),
        last.spec == spec,
        steps <= adjacent_pairs(&spec),
        last.walls.len() == adjacent_pairs(&spec) - steps,
{
    lemma_fresh_is_consistent(spec, fresh);
    wall_count_is_adjacent_pairs(spec);
    steps_keep_consistent(fresh, last, steps);
}

impl Generator {
    /// What holds of a generator between any two calls.
    pub open spec fn inv(&self) -> bool {
        self@.consistent()
    }

    /// A generator for the grid of `spec`, with every wall closed.
    pub fn new(spec: DungeonSpecification) -> (r: Generator)
        requires
            spec.indexable(),
        ensures
            r.inv(),
            r@.is_fresh(spec),
    {
        let positions = spec.positions();
        let count: usize = positions.len();
        let mut rooms: Vec<Room> = Vec::new();
        let mut made: usize = 0;
        while made < count
            invariant
                made <= count,
                rooms.len() == made,
                forall|i: int, d: Direction| 0 <= i < rooms.len() ==> !#[trigger] rooms[i].open(d),
            decreases count - made,
        {
            rooms.push(Room::closed());
            made += 1;
        }
        let mut walls: Vec<Wall> = Vec::new();
        let mut k: usize = 0;
        proof {
            reveal(Seq::filter);
            assert(wall_slots(&spec, 0) =~= Seq::<Wall>::empty());
        }
        while k < count
            invariant
                spec.indexable(),
                count == spec.room_count(),
                positions.len() == count,
                forall|i: int| 0 <= i < count ==> #[trigger] positions[i] == spec.position_at(i),
                forall|i: int| 0 <= i < count ==> (#[trigger] positions[i]).in_bounds(&spec),
                k <= count,
                walls@ == wall_slots(&spec, 3 * k).filter(candidate_in(spec)),
            decreases count - k,
        {
            let position = positions[k];
            let mut rank: usize = 0;
            while rank < FORWARD_COUNT
                invariant
                    spec.indexable(),
                    k < count,
                    rank <= FORWARD_COUNT,
                    position == spec.position_at(k as int),
                    position.in_bounds(&spec),
                    walls@ == wall_slots(&spec, 3 * k + rank).filter(candidate_in(spec)),
                decreases FORWARD_COUNT - rank,
            {
                let direction = forward(rank);
                let wall = Wall { position, direction };
                proof {
                    lemma_slots_extend(spec, 3 * k + rank);
                    assert(wall_slot(&spec, 3 * k + rank) == wall);
                }
                if position.in_direction(direction, &spec).is_some() {
                    walls.push(wall);
                }
                rank += 1;
            }
            k += 1;
        }
        proof {
            let ghost fresh = GeneratorView {
                spec,
                rooms: rooms@,
                walls: walls@,
                done: fully_connected(&spec, rooms@),
            };
            lemma_fresh_is_consistent(spec, fresh);
        }
        let done = is_connected(&spec, &rooms);
        Generator { spec, rooms, walls, done }
    }

    /// The specification that the grid was made for.
    pub fn spec(&self) -> (r: &DungeonSpecification)
        ensures
            *r == self@.spec,
    {
        &self.spec
    }

    /// The rooms, in the order of their index.
    pub fn rooms(&self) -> (r: &Vec<Room>)
        ensures
            r@ == self@.rooms,
    {
        &self.rooms
    }

    /// The walls that can still be opened.
    pub fn walls(&self) -> (r: &Vec<Wall>)
        ensures
            r@ == self@.walls,
    {
        &self.walls
    }

    /// Whether every room can be reached from every other.
    pub fn is_done(&self) -> (r: bool)
        ensures
            r == self@.done,
    {
        self.done
    }

    /// `Done` once the grid is connected, `Generating` before.
    pub fn state(&self) -> (r: GeneratorState)
        ensures
            r == GeneratorState::Done <==> self@.done,
    {
        if self.done {
            GeneratorState::Done
        } else {
            GeneratorState::Generating
        }
    }

    /// Opens the wall at place `index` of the list: takes it off the list
    /// and opens the face on both of its sides. No other operation changes
    /// the grid.
    pub fn open_wall(&mut self, index: usize) -> (wall: Wall)
        requires
            old(self).inv(),
            index < old(self)@.walls.len(),
        ensures
            final(self).inv(),
            old(self)@.opens(index as int, final(self)@),
            wall == old(self)@.walls[index as int],
            final(self)@.walls.len() == old(self)@.walls.len() - 1,
    {
        let ghost before = self@;
        let wall = self.walls.remove(index);
        let here: usize = wall.position.index(&self.spec);
        let far = wall.position.in_direction(wall.direction, &self.spec).unwrap();
        let there: usize = far.index(&self.spec);
        let near_room = self.rooms[here].with_open(wall.direction);
        self.rooms[here] = near_room;
        let far_room = self.rooms[there].with_open(wall.direction.opposite());
        self.rooms[there] = far_room;
        proof {
            let spec = self.spec;
            assert forall|p: Position, d: Direction| p.in_bounds(&spec) implies #[trigger] open_at(
                &spec,
                self.rooms@,
                p,
                d,
            ) == before.open_after(wall, p, d) by {
                lemma_index_in_range(spec, p);
                if p != wall.position {
                    if p.spec_index(&spec) == here {
                        lemma_index_injective(spec, p, wall.position);
                    }
                }
                if p != far {
                    if p.spec_index(&spec) == there {
                        lemma_index_injective(spec, p, far);
                    }
                }
                lemma_neighbor_round_trip(spec, wall.position, wall.direction);
                opposite_is_involution(wall.direction);
            }
            let ghost after = GeneratorView {
                spec: self.spec,
                rooms: self.rooms@,
                walls: self.walls@,
                done: fully_connected(&self.spec, self.rooms@),
            };
            opening_keeps_consistent(before, index as int, after);
        }
        self.done = is_connected(&self.spec, &self.rooms);
        wall
    }

    /// The places in the list of the walls whose two sides lie in different
    /// components, in ascending order.
    pub fn separating_walls(&self) -> (r: Vec<usize>)
        requires
            self.inv(),
        ensures
            r@.map_values(|k: usize| k as int) == self@.separating(),
            forall|j: int| 0 <= j < r.len() ==> #[trigger] r[j] < self@.walls.len(),
    {
        let areas = build_connectivity(&self.spec, &self.rooms);
        let mut separating: Vec<usize> = Vec::new();
        let mut k: usize = 0;
        while k < self.walls.len()
            invariant
                self.inv(),
                crate::connectivity::is_labeling(&self.spec, self.rooms@, areas@),
                k <= self.walls.len(),
                separating@.map_values(|k: usize| k as int) == separating_below(
                    &self.spec,
                    self.rooms@,
                    self.walls@,
                    k as int,
                ),
            decreases self.walls.len() - k,
        {
            let wall = self.walls[k];
            let far = wall.position.in_direction(wall.direction, &self.spec).unwrap();
            proof {
                labels_agree_iff_connected(self.spec, self.rooms@, areas@, wall.position, far);
            }
            if areas[wall.position.index(&self.spec)] != areas[far.index(&self.spec)] {
                let ghost shorter = separating@;
                separating.push(k);
                assert(separating@.map_values(|k: usize| k as int) =~= shorter.map_values(
                    |k: usize| k as int,
                ).push(k as int));
            }
            k += 1;
        }
        proof {
            lemma_separating_bounded(
                self.spec,
                self.rooms@,
                self.walls@,
                self.walls@.len() as int,
            );
            assert forall|j: int| 0 <= j < separating.len() implies #[trigger] separating[j]
                < self@.walls.len() by {
                assert(separating@.map_values(|k: usize| k as int)[j] == separating[j]);
            }
        }
        separating
    }

    /// One step of the generator, for the draws `biased` and `pick`: opens
    /// the wall that `chosen` names.
    pub fn step(&mut self, biased: bool, pick: usize) -> (wall: Wall)
        requires
            old(self).inv(),
            !old(self)@.done,
        ensures
            final(self).inv(),
            0 <= old(self)@.chosen(biased, pick) < old(self)@.walls.len(),
            old(self)@.opens(old(self)@.chosen(biased, pick), final(self)@),
            wall == old(self)@.walls[old(self)@.chosen(biased, pick)],
            final(self)@.walls.len() == old(self)@.walls.len() - 1,
            old(self)@.steps_to(final(self)@),
    {
        proof {
            unfinished_has_walls(self@);
        }
        let mut index: usize = pick % self.walls.len();
        if biased {
            let separating = self.separating_walls();
            if separating.len() > 0 {
                index = separating[pick % separating.len()];
                assert(separating@.map_values(|k: usize| k as int)[pick as int
                    % separating.len() as int] == index);
            }
        }
        self.open_wall(index)
    }

    /// Takes steps with draws from `rng` until the grid is connected, and
    /// returns how many it took. Each step opens one wall, so there are at
    /// most as many steps as walls.
    pub fn run(&mut self, rng: &mut StdRng, bias: &SeparationBias) -> (steps: usize)
        requires
            old(self).inv(),
            bias.valid(),
        ensures
            final(self).inv(),
            final(self)@.done,
            fully_connected(&final(self)@.spec, final(self)@.rooms),
            old(self)@.reaches(final(self)@, steps as nat),
            final(self)@.spec == old(self)@.spec,
            steps == old(self)@.walls.len() - final(self)@.walls.len(),
            old(self)@.done ==> final(self)@ == old(self)@,
            forall|p: Position, d: Direction|
                p.in_bounds(&old(self)@.spec) && open_at(&old(self)@.spec, old(self)@.rooms, p, d)
                    ==> #[trigger] open_at(&final(self)@.spec, final(self)@.rooms, p, d),
    {
        let mut steps: usize = 0;
        assert(self@.walls.len() == self.walls.len());
        while !self.done
            invariant
                self.inv(),
                bias.valid(),
                old(self)@.walls.len() <= usize::MAX,
                old(self)@.reaches(self@, steps as nat),
                self@.spec == old(self)@.spec,
                steps == old(self)@.walls.len() - self@.walls.len(),
                old(self)@.done ==> self@ == old(self)@,
                forall|p: Position, d: Direction|
                    p.in_bounds(&old(self)@.spec) && open_at(
                        &old(self)@.spec,
                        old(self)@.rooms,
                        p,
                        d,
                    ) ==> #[trigger] open_at(&self@.spec, self@.rooms, p, d),
            decreases self@.walls.len(),
        {
            let ghost middle = self@;
            let biased = draw_ratio(rng, bias.numerator, bias.denominator);
            let pick = draw_usize(rng);
            self.step(biased, pick);
            steps += 1;
            assert(middle.steps_to(self@));
        }
        steps
    }
}

} // verus!
