//! Counting the components of a grid: how many there are, and how opening
//! a wall changes their number.

use vstd::prelude::*;
use crate::connectivity::connected;
use crate::connectivity::fully_connected;
use crate::connectivity::is_labeling;
use crate::connectivity::lemma_closed_set_holds_component;
use crate::connectivity::lemma_connected_extend;
use crate::connectivity::lemma_connected_reflexive;
use crate::connectivity::lemma_connected_symmetric;
use crate::connectivity::lemma_connected_transitive;
use crate::connectivity::linked;
use crate::connectivity::passage;
use crate::direction::Direction;
use crate::generator::GeneratorView;
use crate::generator::Wall;
use crate::generator::adjacent_pairs;
use crate::generator::chosen_wall_is_listed;
use crate::generator::fresh_generator_stays_within_bounds;
use crate::generator::steps_keep_consistent;
use crate::grid::DungeonSpecification;
use crate::grid::Position;
use crate::grid::Room;
use crate::grid::lemma_index_in_range;
use crate::grid::lemma_index_position_at;
use crate::grid::lemma_neighbor_round_trip;
use crate::grid::lemma_room_count_positive;
use crate::grid::open_at;
use crate::grid::well_formed;

verus! {

/// Room `i` has the lowest index of its component: no room of lower index
/// is connected to it.
pub open spec fn is_root(spec: &DungeonSpecification, rooms: Seq<Room>, i: int) -> bool {
    forall|j: int| 0 <= j < i ==> !#[trigger] linked(spec, rooms, i, j)
}

/// Number of rooms below `count` that have the lowest index of their
/// component.
pub open spec fn roots_below(spec: &DungeonSpecification, rooms: Seq<Room>, count: int) -> int
    decreases count,
{
    if count <= 0 {
        0
    } else {
        roots_below(spec, rooms, count - 1) + if is_root(spec, rooms, count - 1) {
            1int
        } else {
            0int
        }
    }
}

/// Number of components of the grid.
pub open spec fn component_count(spec: &DungeonSpecification, rooms: Seq<Room>) -> int {
    roots_below(spec, rooms, spec.room_count())
}

proof fn lemma_roots_bounds(spec: DungeonSpecification, rooms: Seq<Room>, count: int)
    requires
        0 <= count,
    ensures
        0 <= roots_below(&spec, rooms, count) <= count,
        (forall|i: int| 0 <= i < count ==> is_root(&spec, rooms, i)) ==> roots_below(
            &spec,
            rooms,
            count,
        ) == count,
        count > 0 && (forall|i: int| 0 < i < count ==> !is_root(&spec, rooms, i)) ==> roots_below(
            &spec,
            rooms,
            count,
        ) == 1,
    decreases count,
{
    if count > 0 {
        lemma_roots_bounds(spec, rooms, count - 1);
        if count == 1 {
            assert(is_root(&spec, rooms, 0));
        }
    }
}

/// Where every root of `after` is a root of `before`, and at most the room
/// `lost` is a root of `before` only, `after` has at most one root less.
proof fn lemma_roots_compare(
    spec: DungeonSpecification,
    before: Seq<Room>,
    after: Seq<Room>,
    lost: int,
    count: int,
)
    requires
        0 <= count,
        forall|i: int|
            0 <= i < count && is_root(&spec, after, i) ==> is_root(&spec, before, i),
        forall|i: int|
            0 <= i < count && is_root(&spec, before, i) && !is_root(&spec, after, i) ==> i
                == lost,
    ensures
        roots_below(&spec, before, count) - (if 0 <= lost < count && is_root(&spec, before, lost)
            && !is_root(&spec, after, lost) {
            1int
        } else {
            0int
        }) == roots_below(&spec, after, count),
    decreases count,
{
    if count > 0 {
        lemma_roots_compare(spec, before, after, lost, count - 1);
    }
}

/// In a grid without an open face every room is connected to itself only.
proof fn lemma_closed_rooms_stand_alone(
    spec: DungeonSpecification,
    rooms: Seq<Room>,
    p: Position,
    q: Position,
)
    requires
        p.in_bounds(&spec),
        forall|a: Position, d: Direction| a.in_bounds(&spec) ==> !open_at(&spec, rooms, a, d),
        connected(&spec, rooms, p, q),
    ensures
        p == q,
{
    let inside = |a: Position| a == p;
    lemma_closed_set_holds_component(spec, rooms, inside, p, q);
}

/// A grid of closed rooms has as many components as rooms.
pub proof fn closed_grid_has_a_component_for_each_room(
    spec: DungeonSpecification,
    rooms: Seq<Room>,
)
    requires
        spec.valid(),
        rooms.len() == spec.room_count(),
        forall|i: int, d: Direction| 0 <= i < rooms.len() ==> !#[trigger] rooms[i].open(d),
    ensures
        component_count(&spec, rooms) == spec.room_count(),
{
    lemma_room_count_positive(spec);
    assert forall|a: Position, d: Direction| a.in_bounds(&spec) implies !open_at(
        &spec,
        rooms,
        a,
        d,
    ) by {
        lemma_index_in_range(spec, a);
    }
    assert forall|i: int| 0 <= i < spec.room_count() implies is_root(&spec, rooms, i) by {
        assert forall|j: int| 0 <= j < i implies !#[trigger] linked(&spec, rooms, i, j) by {
            lemma_index_position_at(spec, i);
            lemma_index_position_at(spec, j);
            if linked(&spec, rooms, i, j) {
                lemma_closed_rooms_stand_alone(
                    spec,
                    rooms,
                    spec.position_at(i),
                    spec.position_at(j),
                );
            }
        }
    }
    lemma_roots_bounds(spec, rooms, spec.room_count());
}

/// A fully connected grid has one component.
pub proof fn connected_grid_has_one_component(spec: DungeonSpecification, rooms: Seq<Room>)
    requires
        spec.valid(),
        fully_connected(&spec, rooms),
    ensures
        component_count(&spec, rooms) == 1,
{
    lemma_room_count_positive(spec);
    assert forall|i: int| 0 < i < spec.room_count() implies !is_root(&spec, rooms, i) by {
        lemma_index_position_at(spec, i);
        lemma_index_position_at(spec, 0);
        assert(linked(&spec, rooms, i, 0));
    }
    lemma_roots_bounds(spec, rooms, spec.room_count());
}

/// The rooms that carry their own index as their label are the rooms with
/// the lowest index of their component: the labeling has one label for
/// each component.
pub proof fn roots_carry_their_own_label(
    spec: DungeonSpecification,
    rooms: Seq<Room>,
    areas: Seq<usize>,
    i: int,
)
    requires
        spec.valid(),
        is_labeling(&spec, rooms, areas),
        0 <= i < spec.room_count(),
    ensures
        areas[i] == i <==> is_root(&spec, rooms, i),
{
    lemma_index_position_at(spec, i);
    lemma_connected_reflexive(spec, rooms, spec.position_at(i));
    assert(linked(&spec, rooms, i, i));
    assert(linked(&spec, rooms, i, areas[i] as int));
    if areas[i] == i {
        assert forall|j: int| 0 <= j < i implies !#[trigger] linked(&spec, rooms, i, j) by {
            if linked(&spec, rooms, i, j) {
                assert(areas[i] <= j);
            }
        }
    }
}

/// `x` is connected to one of the two rooms beside `wall`.
spec fn beside(spec: &DungeonSpecification, rooms: Seq<Room>, wall: Wall, x: Position) -> bool {
    connected(spec, rooms, wall.position, x) || connected(spec, rooms, wall.far_side(spec), x)
}

/// What opening `wall` can connect: rooms that were connected before, and
/// rooms that were both connected to a side of the wall.
spec fn joined(
    spec: &DungeonSpecification,
    rooms: Seq<Room>,
    wall: Wall,
    x: Position,
    y: Position,
) -> bool {
    connected(spec, rooms, x, y) || (beside(spec, rooms, wall, x) && beside(spec, rooms, wall, y))
}

/// Opening a wall connects no more than `joined` allows, and keeps
/// connected what was connected.
proof fn lemma_opening_joins(
    before: GeneratorView,
    index: int,
    after: GeneratorView,
    x: Position,
    y: Position,
)
    requires
        before.consistent(),
        0 <= index < before.walls.len(),
        before.opens(index, after),
        x.in_bounds(&before.spec),
    ensures
        connected(&before.spec, after.rooms, x, y) ==> joined(
            &before.spec,
            before.rooms,
            before.walls[index],
            x,
            y,
        ),
        connected(&before.spec, before.rooms, x, y) ==> connected(&before.spec, after.rooms, x, y),
{
    let spec = before.spec;
    let wall = before.walls[index];
    let near = wall.position;
    let far = wall.far_side(&spec);
    lemma_neighbor_round_trip(spec, near, wall.direction);
    lemma_connected_reflexive(spec, before.rooms, near);
    lemma_connected_reflexive(spec, before.rooms, far);
    lemma_connected_reflexive(spec, before.rooms, x);
    lemma_connected_reflexive(spec, after.rooms, x);
    if connected(&spec, after.rooms, x, y) {
        let inside = |a: Position| joined(&spec, before.rooms, wall, x, a);
        assert forall|a: Position, b: Position|
            a.in_bounds(&spec) && inside(a) && #[trigger] passage(
                &spec,
                after.rooms,
                a,
                b,
            ) implies inside(b) by {
            let d = choose|d: Direction| #[trigger]
                open_at(&spec, after.rooms, a, d) && a.neighbor(d, &spec) == Some(b);
            lemma_neighbor_round_trip(spec, a, d);
            assert(before.open_after(wall, a, d));
            if open_at(&spec, before.rooms, a, d) {
                assert(passage(&spec, before.rooms, a, b));
                if connected(&spec, before.rooms, x, a) {
                    lemma_connected_extend(spec, before.rooms, x, a, b);
                } else {
                    if connected(&spec, before.rooms, near, a) {
                        lemma_connected_extend(spec, before.rooms, near, a, b);
                    } else {
                        lemma_connected_extend(spec, before.rooms, far, a, b);
                    }
                }
            } else {
                // The passage leads through the wall, from one of its sides
                // to the other.
                assert(a == near && b == far || a == far && b == near);
                if connected(&spec, before.rooms, x, a) {
                    lemma_connected_symmetric(spec, before.rooms, x, a);
                }
            }
        }
        lemma_closed_set_holds_component(spec, after.rooms, inside, x, y);
    }
    if connected(&spec, before.rooms, x, y) {
        let inside = |a: Position| connected(&spec, after.rooms, x, a);
        assert forall|a: Position, b: Position|
            a.in_bounds(&spec) && inside(a) && #[trigger] passage(
                &spec,
                before.rooms,
                a,
                b,
            ) implies inside(b) by {
            let d = choose|d: Direction| #[trigger]
                open_at(&spec, before.rooms, a, d) && a.neighbor(d, &spec) == Some(b);
            lemma_neighbor_round_trip(spec, a, d);
            assert(before.open_after(wall, a, d));
            assert(open_at(&spec, after.rooms, a, d));
            assert(passage(&spec, after.rooms, a, b));
            lemma_connected_extend(spec, after.rooms, x, a, b);
        }
        lemma_closed_set_holds_component(spec, before.rooms, inside, x, y);
    }
}

/// Of three rooms beside a wall, two are connected to the same side.
proof fn lemma_two_share_a_side(
    spec: DungeonSpecification,
    rooms: Seq<Room>,
    wall: Wall,
    x: Position,
    y: Position,
    z: Position,
)
    requires
        well_formed(&spec, rooms),
        beside(&spec, rooms, wall, x),
        beside(&spec, rooms, wall, y),
        beside(&spec, rooms, wall, z),
    ensures
        connected(&spec, rooms, x, y) || connected(&spec, rooms, x, z) || connected(
            &spec,
            rooms,
            y,
            z,
        ),
{
    let near = wall.position;
    let far = wall.far_side(&spec);
    if connected(&spec, rooms, near, x) && connected(&spec, rooms, near, y) {
        lemma_connected_symmetric(spec, rooms, near, x);
        lemma_connected_transitive(spec, rooms, x, near, y);
    } else if connected(&spec, rooms, far, x) && connected(&spec, rooms, far, y) {
        lemma_connected_symmetric(spec, rooms, far, x);
        lemma_connected_transitive(spec, rooms, x, far, y);
    } else if connected(&spec, rooms, near, x) && connected(&spec, rooms, near, z) {
        lemma_connected_symmetric(spec, rooms, near, x);
        lemma_connected_transitive(spec, rooms, x, near, z);
    } else if connected(&spec, rooms, far, x) && connected(&spec, rooms, far, z) {
        lemma_connected_symmetric(spec, rooms, far, x);
        lemma_connected_transitive(spec, rooms, x, far, z);
    } else if connected(&spec, rooms, near, y) && connected(&spec, rooms, near, z) {
        lemma_connected_symmetric(spec, rooms, near, y);
        lemma_connected_transitive(spec, rooms, y, near, z);
    } else {
        lemma_connected_symmetric(spec, rooms, far, y);
        lemma_connected_transitive(spec, rooms, y, far, z);
    }
}

/// Opening a wall joins at most two components into one: the grid has as
/// many components as before, or one less.
pub proof fn opening_joins_two_components_at_most(
    before: GeneratorView,
    index: int,
    after: GeneratorView,
)
    requires
        before.consistent(),
        0 <= index < before.walls.len(),
        before.opens(index, after),
    ensures
        component_count(&before.spec, before.rooms) - 1 <= component_count(
            &before.spec,
            after.rooms,
        ) <= component_count(&before.spec, before.rooms),
{
    let spec = before.spec;
    let wall = before.walls[index];
    let count = spec.room_count();
    // A room that stops having the lowest index of its component.
    let lost = choose|i: int|
        0 <= i < count && is_root(&spec, before.rooms, i) && !is_root(&spec, after.rooms, i);
    assert forall|i: int| 0 <= i < count && is_root(&spec, after.rooms, i) implies is_root(
        &spec,
        before.rooms,
        i,
    ) by {
        assert forall|j: int| 0 <= j < i implies !#[trigger] linked(&spec, before.rooms, i, j) by {
            lemma_index_position_at(spec, i);
            lemma_opening_joins(
                before,
                index,
                after,
                spec.position_at(i),
                spec.position_at(j),
            );
            assert(!linked(&spec, after.rooms, i, j));
        }
    }
    assert forall|i: int|
        0 <= i < count && is_root(&spec, before.rooms, i) && !is_root(
            &spec,
            after.rooms,
            i,
        ) implies i == lost by {
        if i != lost {
            let (low, high) = if i < lost {
                (i, lost)
            } else {
                (lost, i)
            };
            let under = choose|j: int| 0 <= j < low && linked(&spec, after.rooms, low, j);
            let under_high = choose|j: int| 0 <= j < high && linked(&spec, after.rooms, high, j);
            lemma_index_position_at(spec, low);
            lemma_index_position_at(spec, high);
            lemma_index_position_at(spec, under);
            let (a, b, c) = (
                spec.position_at(under),
                spec.position_at(low),
                spec.position_at(high),
            );
            lemma_opening_joins(before, index, after, b, a);
            lemma_opening_joins(before, index, after, c, spec.position_at(under_high));
            assert(!linked(&spec, before.rooms, low, under));
            assert(!linked(&spec, before.rooms, high, under_high));
            lemma_two_share_a_side(spec, before.rooms, wall, a, b, c);
            if connected(&spec, before.rooms, a, b) {
                lemma_connected_symmetric(spec, before.rooms, a, b);
                assert(linked(&spec, before.rooms, low, under));
            } else if connected(&spec, before.rooms, a, c) {
                lemma_connected_symmetric(spec, before.rooms, a, c);
                assert(linked(&spec, before.rooms, high, under));
            } else {
                lemma_connected_symmetric(spec, before.rooms, b, c);
                assert(linked(&spec, before.rooms, high, low));
            }
        }
    }
    lemma_roots_compare(spec, before.rooms, after.rooms, lost, count);
}

/// Every step of a generator lowers the number of components by one at
/// most.
proof fn lemma_steps_join_slowly(first: GeneratorView, last: GeneratorView, steps: nat)
    requires
        first.consistent(),
        first.reaches(last, steps),
    ensures
        component_count(&first.spec, first.rooms) - steps <= component_count(
            &first.spec,
            last.rooms,
        ),
    decreases steps,
{
    if steps > 0 {
        let middle = choose|middle: GeneratorView|
            first.reaches(middle, (steps - 1) as nat) && #[trigger] middle.steps_to(last);
        lemma_steps_join_slowly(first, middle, (steps - 1) as nat);
        steps_keep_consistent(first, middle, (steps - 1) as nat);
        let (biased, pick) = choose|biased: bool, pick: usize| #[trigger]
            middle.opens(middle.chosen(biased, pick), last);
        chosen_wall_is_listed(middle, biased, pick);
        opening_joins_two_components_at_most(middle, middle.chosen(biased, pick), last);
    }
}

/// A generator that starts with every wall closed and ends with a connected
/// grid has opened one wall less than there are rooms, or more, and no more
/// walls than there are pairs of adjacent rooms.
pub proof fn connected_grid_takes_enough_steps(
    spec: DungeonSpecification,
    fresh: GeneratorView,
    last: GeneratorView,
    steps: nat,
)
    requires
        spec.indexable(),
        fresh.is_fresh(spec),
        fresh.reaches(last, steps),
        last.done,
    ensures
        spec.room_count() - 1 <= steps <= adjacent_pairs(&spec),
{
    fresh_generator_stays_within_bounds(spec, fresh, fresh, 0);
    fresh_generator_stays_within_bounds(spec, fresh, last, steps);
    closed_grid_has_a_component_for_each_room(spec, fresh.rooms);
    lemma_steps_join_slowly(fresh, last, steps);
    connected_grid_has_one_component(spec, last.rooms);
}

} // verus!
