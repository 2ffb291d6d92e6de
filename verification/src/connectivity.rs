//! Which rooms can be reached from which through open walls, and the flood
//! fill that labels every room with the lowest index of its component.

use vstd::prelude::*;
use crate::direction::Direction;
use crate::direction::DIRECTION_COUNT;
use crate::grid::DungeonSpecification;
use crate::grid::Position;
use crate::grid::Room;
use crate::grid::open_at;
use crate::grid::well_formed;
use crate::grid::lemma_index_in_range;
use crate::grid::lemma_index_position_at;
use crate::grid::lemma_neighbor_round_trip;
use crate::grid::lemma_position_at_index;
use crate::grid::lemma_room_count_positive;

verus! {

/// `q` is the neighbor of `p` behind one of the open faces of `p`.
pub open spec fn passage(
    spec: &DungeonSpecification,
    rooms: Seq<Room>,
    p: Position,
    q: Position,
) -> bool {
    exists|d: Direction| #[trigger] open_at(spec, rooms, p, d) && p.neighbor(d, spec) == Some(q)
}

/// There is a passage from the room at place `k` of `path` to the next one.
pub open spec fn hop(
    spec: &DungeonSpecification,
    rooms: Seq<Room>,
    path: Seq<Position>,
    k: int,
) -> bool {
    passage(spec, rooms, path[k], path[k + 1])
}

/// `path` is a walk through the grid: a non-empty sequence of rooms in which
/// each room has a passage to the next.
pub open spec fn is_route(spec: &DungeonSpecification, rooms: Seq<Room>, path: Seq<Position>) -> bool {
    &&& path.len() > 0
    &&& forall|k: int| 0 <= k < path.len() ==> (#[trigger] path[k]).in_bounds(spec)
    &&& forall|k: int| 0 <= k < path.len() - 1 ==> #[trigger] hop(spec, rooms, path, k)
}

/// `q` can be reached from `p` by walking through open walls.
pub open spec fn connected(
    spec: &DungeonSpecification,
    rooms: Seq<Room>,
    p: Position,
    q: Position,
) -> bool {
    exists|path: Seq<Position>|
        #[trigger] is_route(spec, rooms, path) && path[0] == p && path.last() == q
}

/// Every room of the grid can be reached from every other.
pub open spec fn fully_connected(spec: &DungeonSpecification, rooms: Seq<Room>) -> bool {
    forall|p: Position, q: Position|
        p.in_bounds(spec) && q.in_bounds(spec) ==> #[trigger] connected(spec, rooms, p, q)
}

/// Every room is connected to itself.
pub proof fn lemma_connected_reflexive(spec: DungeonSpecification, rooms: Seq<Room>, p: Position)
    requires
        p.in_bounds(&spec),
    ensures
        connected(&spec, rooms, p, p),
{
    let path = seq![p];
    assert(is_route(&spec, rooms, path));
    assert(path[0] == p && path.last() == p);
}

/// A walk can be extended by one passage.
pub proof fn lemma_connected_extend(
    spec: DungeonSpecification,
    rooms: Seq<Room>,
    p: Position,
    q: Position,
    r: Position,
)
    requires
        connected(&spec, rooms, p, q),
        passage(&spec, rooms, q, r),
        r.in_bounds(&spec),
    ensures
        connected(&spec, rooms, p, r),
{
    let path = choose|path: Seq<Position>|
        #[trigger] is_route(&spec, rooms, path) && path[0] == p && path.last() == q;
    let longer = path.push(r);
    assert forall|k: int| 0 <= k < longer.len() - 1 implies #[trigger] hop(
        &spec,
        rooms,
        longer,
        k,
    ) by {
        if k < path.len() - 1 {
            assert(hop(&spec, rooms, path, k));
        }
    }
    assert(is_route(&spec, rooms, longer));
    assert(longer[0] == p && longer.last() == r);
}

/// Walks compose: what is reachable from a reachable room is reachable.
pub proof fn lemma_connected_transitive(
    spec: DungeonSpecification,
    rooms: Seq<Room>,
    p: Position,
    q: Position,
    r: Position,
)
    requires
        connected(&spec, rooms, p, q),
        connected(&spec, rooms, q, r),
    ensures
        connected(&spec, rooms, p, r),
{
    let first = choose|path: Seq<Position>|
        #[trigger] is_route(&spec, rooms, path) && path[0] == p && path.last() == q;
    let second = choose|path: Seq<Position>|
        #[trigger] is_route(&spec, rooms, path) && path[0] == q && path.last() == r;
    let joined = first + second.subrange(1, second.len() as int);
    assert forall|k: int| 0 <= k < joined.len() - 1 implies #[trigger] hop(
        &spec,
        rooms,
        joined,
        k,
    ) by {
        if k < first.len() - 1 {
            assert(hop(&spec, rooms, first, k));
        } else {
            let j = k - first.len() + 1;
            assert(hop(&spec, rooms, second, j));
        }
    }
    assert(is_route(&spec, rooms, joined));
    assert(joined[0] == p && joined.last() == r);
}

/// In a well-formed grid a passage can be walked in both directions.
pub proof fn lemma_passage_symmetric(
    spec: DungeonSpecification,
    rooms: Seq<Room>,
    p: Position,
    q: Position,
)
    requires
        well_formed(&spec, rooms),
        p.in_bounds(&spec),
        passage(&spec, rooms, p, q),
    ensures
        q.in_bounds(&spec),
        passage(&spec, rooms, q, p),
{
    let d = choose|d: Direction| #[trigger]
        open_at(&spec, rooms, p, d) && p.neighbor(d, &spec) == Some(q);
    lemma_neighbor_round_trip(spec, p, d);
    assert(open_at(&spec, rooms, q, d.opposite()));
}

/// In a well-formed grid reachability is symmetric.
pub proof fn lemma_connected_symmetric(
    spec: DungeonSpecification,
    rooms: Seq<Room>,
    p: Position,
    q: Position,
)
    requires
        well_formed(&spec, rooms),
        connected(&spec, rooms, p, q),
    ensures
        connected(&spec, rooms, q, p),
{
    let path = choose|path: Seq<Position>|
        #[trigger] is_route(&spec, rooms, path) && path[0] == p && path.last() == q;
    let back = path.reverse();
    assert forall|k: int| 0 <= k < back.len() - 1 implies #[trigger] hop(
        &spec,
        rooms,
        back,
        k,
    ) by {
        let j = path.len() - 2 - k;
        assert(hop(&spec, rooms, path, j));
        assert(path[j].in_bounds(&spec));
        lemma_passage_symmetric(spec, rooms, path[j], path[j + 1]);
    }
    assert(is_route(&spec, rooms, back));
    assert(back[0] == q && back.last() == p);
}

/// A set of rooms that holds `p` and is closed under passages holds every
/// room reachable from `p`.
pub proof fn lemma_closed_set_holds_component(
    spec: DungeonSpecification,
    rooms: Seq<Room>,
    inside: spec_fn(Position) -> bool,
    p: Position,
    q: Position,
)
    requires
        inside(p),
        forall|a: Position, b: Position|
            a.in_bounds(&spec) && inside(a) && #[trigger] passage(&spec, rooms, a, b) ==> inside(b),
        connected(&spec, rooms, p, q),
    ensures
        inside(q),
{
    let path = choose|path: Seq<Position>|
        #[trigger] is_route(&spec, rooms, path) && path[0] == p && path.last() == q;
    lemma_route_stays_inside(spec, rooms, inside, path, path.len() - 1);
}

proof fn lemma_route_stays_inside(
    spec: DungeonSpecification,
    rooms: Seq<Room>,
    inside: spec_fn(Position) -> bool,
    path: Seq<Position>,
    k: int,
)
    requires
        is_route(&spec, rooms, path),
        inside(path[0]),
        forall|a: Position, b: Position|
            a.in_bounds(&spec) && inside(a) && #[trigger] passage(&spec, rooms, a, b) ==> inside(b),
        0 <= k < path.len(),
    ensures
        inside(path[k]),
    decreases k,
{
    if k > 0 {
        lemma_route_stays_inside(spec, rooms, inside, path, k - 1);
        assert(hop(&spec, rooms, path, k - 1));
        assert(path[k - 1].in_bounds(&spec));
    }
}

/// The rooms numbered `i` and `j` are connected.
pub open spec fn linked(spec: &DungeonSpecification, rooms: Seq<Room>, i: int, j: int) -> bool {
    connected(spec, rooms, spec.position_at(i), spec.position_at(j))
}

/// `areas` labels every room with the lowest index among the rooms that can
/// be reached from it: the label of a room is the index of a room connected
/// to it, and no room connected to it has a lower index.
pub open spec fn is_labeling(spec: &DungeonSpecification, rooms: Seq<Room>, areas: Seq<usize>) -> bool {
    &&& areas.len() == spec.room_count()
    &&& forall|i: int|
        0 <= i < areas.len() ==> (#[trigger] areas[i]) < areas.len() && linked(
            spec,
            rooms,
            i,
            areas[i] as int,
        )
    &&& forall|i: int, j: int|
        0 <= i < areas.len() && 0 <= j < areas.len() && #[trigger] linked(spec, rooms, i, j)
            ==> areas[i] <= j
}

proof fn lemma_linked_reflexive(spec: DungeonSpecification, rooms: Seq<Room>, i: int)
    requires
        spec.valid(),
        0 <= i < spec.room_count(),
    ensures
        linked(&spec, rooms, i, i),
{
    lemma_index_position_at(spec, i);
    lemma_connected_reflexive(spec, rooms, spec.position_at(i));
}

proof fn lemma_linked_transitive(spec: DungeonSpecification, rooms: Seq<Room>, i: int, j: int, k: int)
    requires
        linked(&spec, rooms, i, j),
        linked(&spec, rooms, j, k),
    ensures
        linked(&spec, rooms, i, k),
{
    lemma_connected_transitive(
        spec,
        rooms,
        spec.position_at(i),
        spec.position_at(j),
        spec.position_at(k),
    );
}

proof fn lemma_linked_symmetric(spec: DungeonSpecification, rooms: Seq<Room>, i: int, j: int)
    requires
        well_formed(&spec, rooms),
        linked(&spec, rooms, i, j),
    ensures
        linked(&spec, rooms, j, i),
{
    lemma_connected_symmetric(spec, rooms, spec.position_at(i), spec.position_at(j));
}

/// State of the labels once every seed below `seeds` has been flooded: a
/// room whose component holds an index below `seeds` carries the lowest
/// index of its component, and every other room still carries its own.
spec fn labeled_below(
    spec: &DungeonSpecification,
    rooms: Seq<Room>,
    areas: Seq<usize>,
    seeds: int,
) -> bool {
    &&& areas.len() == spec.room_count()
    &&& forall|i: int|
        0 <= i < areas.len() ==> (#[trigger] areas[i] == i || areas[i] < seeds) && linked(
            spec,
            rooms,
            i,
            areas[i] as int,
        )
    &&& forall|i: int, j: int|
        0 <= i < areas.len() && 0 <= j < seeds && #[trigger] linked(spec, rooms, i, j) ==> areas[i]
            <= j
}

/// The room numbered `i` occurs on the stack.
spec fn on_stack(spec: &DungeonSpecification, stack: Seq<Position>, i: int) -> bool {
    exists|k: int| 0 <= k < stack.len() && (#[trigger] stack[k]).spec_index(spec) == i
}

/// Every open face of room `i` in a direction whose index is below `limit`
/// leads to a room labelled `seed`.
spec fn sealed_up_to(
    spec: &DungeonSpecification,
    rooms: Seq<Room>,
    areas: Seq<usize>,
    seed: int,
    i: int,
    limit: int,
) -> bool {
    forall|d: Direction|
        d.index() < limit && #[trigger] rooms[i].open(d) ==> {
            &&& spec.position_at(i).neighbor(d, spec) is Some
            &&& areas[spec.position_at(i).neighbor(d, spec).unwrap().spec_index(spec)] == seed
        }
}

/// State of a flood from `seed` that started from the labels `before`:
/// only rooms connected to the seed have been relabelled, everything on the
/// stack is labelled, and a labelled room is either still on the stack, or
/// the one being expanded, or has all its open faces leading to labelled
/// rooms.
spec fn flooding(
    spec: &DungeonSpecification,
    rooms: Seq<Room>,
    before: Seq<usize>,
    areas: Seq<usize>,
    stack: Seq<Position>,
    seed: int,
    current: Option<int>,
) -> bool {
    &&& areas.len() == spec.room_count()
    &&& before.len() == spec.room_count()
    &&& forall|i: int|
        0 <= i < areas.len() ==> #[trigger] areas[i] == before[i] || (areas[i] == seed && linked(
            spec,
            rooms,
            seed,
            i,
        ))
    &&& forall|k: int|
        0 <= k < stack.len() ==> (#[trigger] stack[k]).in_bounds(spec)
            && areas[stack[k].spec_index(spec)] == seed
    &&& forall|i: int|
        0 <= i < areas.len() && #[trigger] areas[i] == seed ==> current == Some(i) || on_stack(
            spec,
            stack,
            i,
        ) || sealed_up_to(spec, rooms, areas, seed, i, DIRECTION_COUNT as int)
}

/// Number of rooms whose label is still above `seed`.
spec fn pending(areas: Seq<usize>, seed: int) -> nat
    decreases areas.len(),
{
    if areas.len() == 0 {
        0
    } else {
        pending(areas.drop_last(), seed) + if areas.last() > seed {
            1nat
        } else {
            0nat
        }
    }
}

proof fn lemma_pending_mark(areas: Seq<usize>, seed: usize, i: int)
    requires
        0 <= i < areas.len(),
        areas[i] > seed,
    ensures
        pending(areas.update(i, seed), seed as int) + 1 == pending(areas, seed as int),
    decreases areas.len(),
{
    let marked = areas.update(i, seed);
    if i == areas.len() - 1 {
        assert(marked.drop_last() =~= areas.drop_last());
    } else {
        assert(marked.drop_last() =~= areas.drop_last().update(i, seed));
        lemma_pending_mark(areas.drop_last(), seed, i);
    }
}

proof fn lemma_labeled_initially(spec: DungeonSpecification, rooms: Seq<Room>, areas: Seq<usize>)
    requires
        spec.valid(),
        areas.len() == spec.room_count(),
        forall|i: int| 0 <= i < areas.len() ==> #[trigger] areas[i] == i,
    ensures
        labeled_below(&spec, rooms, areas, 0),
{
    assert forall|i: int| 0 <= i < areas.len() implies (#[trigger] areas[i] == i || areas[i] < 0)
        && linked(&spec, rooms, i, areas[i] as int) by {
        lemma_linked_reflexive(spec, rooms, i);
    }
}

proof fn lemma_labeled_finally(spec: DungeonSpecification, rooms: Seq<Room>, areas: Seq<usize>)
    requires
        labeled_below(&spec, rooms, areas, spec.room_count()),
    ensures
        is_labeling(&spec, rooms, areas),
{
}

/// A seed that already carries a lower label belongs to a component that
/// has been flooded: nothing changes by passing over it.
proof fn lemma_seed_claimed(
    spec: DungeonSpecification,
    rooms: Seq<Room>,
    areas: Seq<usize>,
    seed: int,
)
    requires
        labeled_below(&spec, rooms, areas, seed),
        0 <= seed < areas.len(),
        areas[seed] < seed,
    ensures
        labeled_below(&spec, rooms, areas, seed + 1),
{
    let low = areas[seed] as int;
    assert(linked(&spec, rooms, seed, low));
    assert forall|i: int, j: int|
        0 <= i < areas.len() && 0 <= j < seed + 1 && #[trigger] linked(
            &spec,
            rooms,
            i,
            j,
        ) implies areas[i] <= j by {
        if j == seed {
            lemma_linked_transitive(spec, rooms, i, seed, low);
        }
    }
}

/// A room connected to an unclaimed seed has not been claimed by a lower
/// seed: its label before the flood is its own index, which lies above the
/// seed unless it is the seed.
proof fn lemma_component_unclaimed(
    spec: DungeonSpecification,
    rooms: Seq<Room>,
    before: Seq<usize>,
    seed: int,
    i: int,
)
    requires
        labeled_below(&spec, rooms, before, seed),
        0 <= seed < before.len(),
        before[seed] == seed,
        0 <= i < before.len(),
        linked(&spec, rooms, seed, i),
    ensures
        before[i] == i,
        i >= seed,
{
    let low = before[i] as int;
    assert(linked(&spec, rooms, i, low));
    lemma_linked_transitive(spec, rooms, seed, i, low);
    if low < seed {
        assert(before[seed] <= low);
    }
    if i < seed {
        assert(before[seed] <= i);
    }
}

proof fn lemma_flood_start(
    spec: DungeonSpecification,
    rooms: Seq<Room>,
    before: Seq<usize>,
    seed: int,
    start: Position,
)
    requires
        spec.valid(),
        labeled_below(&spec, rooms, before, seed),
        0 <= seed < before.len(),
        before[seed] == seed,
        start.in_bounds(&spec),
        start.spec_index(&spec) == seed,
    ensures
        flooding(&spec, rooms, before, before, seq![start], seed, None),
{
    let stack = seq![start];
    assert forall|i: int| 0 <= i < before.len() && #[trigger] before[i] == seed implies on_stack(
        &spec,
        stack,
        i,
    ) by {
        assert(linked(&spec, rooms, i, before[i] as int));
        lemma_linked_reflexive(spec, rooms, seed);
        if i != seed {
            // room i would be claimed by an index below its own
            assert(before[i] == i || before[i] < seed);
        }
        assert(stack[0].spec_index(&spec) == i);
    }
}

proof fn lemma_flood_pop(
    spec: DungeonSpecification,
    rooms: Seq<Room>,
    before: Seq<usize>,
    areas: Seq<usize>,
    stack: Seq<Position>,
    seed: int,
)
    requires
        flooding(&spec, rooms, before, areas, stack, seed, None),
        stack.len() > 0,
    ensures
        flooding(
            &spec,
            rooms,
            before,
            areas,
            stack.drop_last(),
            seed,
            Some(stack.last().spec_index(&spec)),
        ),
{
    let rest = stack.drop_last();
    let here = stack.last().spec_index(&spec);
    assert forall|k: int| 0 <= k < rest.len() implies (#[trigger] rest[k]).in_bounds(&spec)
        && areas[rest[k].spec_index(&spec)] == seed by {
        assert(rest[k] == stack[k]);
    }
    assert forall|i: int| 0 <= i < areas.len() && #[trigger] areas[i] == seed implies Some(here)
        == Some(i) || on_stack(&spec, rest, i) || sealed_up_to(
        &spec,
        rooms,
        areas,
        seed,
        i,
        DIRECTION_COUNT as int,
    ) by {
        if on_stack(&spec, stack, i) {
            let k = choose|k: int| 0 <= k < stack.len() && (#[trigger] stack[k]).spec_index(&spec)
                == i;
            if k < rest.len() {
                assert(rest[k] == stack[k]);
            }
        }
    }
}

/// Labelling the neighbor `next` of the room being expanded and pushing it
/// keeps the flood's state, seals one more face and leaves one room less to
/// label.
proof fn lemma_flood_mark(
    spec: DungeonSpecification,
    rooms: Seq<Room>,
    before: Seq<usize>,
    areas: Seq<usize>,
    stack: Seq<Position>,
    seed: usize,
    here: int,
    dir: Direction,
    next: Position,
)
    requires
        well_formed(&spec, rooms),
        flooding(&spec, rooms, before, areas, stack, seed as int, Some(here)),
        0 <= here < areas.len(),
        linked(&spec, rooms, seed as int, here),
        rooms[here].open(dir),
        spec.position_at(here).neighbor(dir, &spec) == Some(next),
        areas[next.spec_index(&spec)] > seed,
        sealed_up_to(&spec, rooms, areas, seed as int, here, dir.index() as int),
    ensures
        flooding(
            &spec,
            rooms,
            before,
            areas.update(next.spec_index(&spec), seed),
            stack.push(next),
            seed as int,
            Some(here),
        ),
        sealed_up_to(
            &spec,
            rooms,
            areas.update(next.spec_index(&spec), seed),
            seed as int,
            here,
            dir.index() + 1,
        ),
        pending(areas.update(next.spec_index(&spec), seed), seed as int) + 1 == pending(
            areas,
            seed as int,
        ),
{
    let origin = spec.position_at(here);
    lemma_index_position_at(spec, here);
    lemma_neighbor_round_trip(spec, origin, dir);
    lemma_index_in_range(spec, next);
    lemma_position_at_index(spec, next);
    let there = next.spec_index(&spec);
    let marked = areas.update(there, seed);
    let grown = stack.push(next);
    lemma_pending_mark(areas, seed, there);
    assert(linked(&spec, rooms, seed as int, there)) by {
        assert(open_at(&spec, rooms, origin, dir));
        assert(passage(&spec, rooms, origin, next));
        lemma_connected_extend(spec, rooms, spec.position_at(seed as int), origin, next);
    }
    assert forall|k: int| 0 <= k < grown.len() implies (#[trigger] grown[k]).in_bounds(&spec)
        && marked[grown[k].spec_index(&spec)] == seed by {
        if k < stack.len() {
            assert(grown[k] == stack[k]);
            lemma_index_in_range(spec, stack[k]);
        }
    }
    assert forall|i: int, limit: int|
        0 <= i < areas.len() && sealed_up_to(
            &spec,
            rooms,
            areas,
            seed as int,
            i,
            limit,
        ) implies sealed_up_to(&spec, rooms, marked, seed as int, i, limit) by {
        assert forall|d: Direction| d.index() < limit && #[trigger] rooms[i].open(d) implies {
            &&& spec.position_at(i).neighbor(d, &spec) is Some
            &&& marked[spec.position_at(i).neighbor(d, &spec).unwrap().spec_index(&spec)] == seed
        } by {
            lemma_index_position_at(spec, i);
            lemma_neighbor_round_trip(spec, spec.position_at(i), d);
            lemma_index_in_range(spec, spec.position_at(i).neighbor(d, &spec).unwrap());
        }
    }
    assert forall|i: int| 0 <= i < marked.len() && #[trigger] marked[i] == seed implies Some(here)
        == Some(i) || on_stack(&spec, grown, i) || sealed_up_to(
        &spec,
        rooms,
        marked,
        seed as int,
        i,
        DIRECTION_COUNT as int,
    ) by {
        if i == there {
            assert(grown[stack.len() as int].spec_index(&spec) == i);
        } else {
            assert(areas[i] == seed);
            if on_stack(&spec, stack, i) {
                let k = choose|k: int| 0 <= k < stack.len() && (#[trigger] stack[k]).spec_index(
                    &spec,
                ) == i;
                assert(grown[k] == stack[k]);
            }
        }
    }
    assert forall|d: Direction| d.index() < dir.index() + 1 && #[trigger] rooms[here].open(
        d,
    ) implies {
        &&& spec.position_at(here).neighbor(d, &spec) is Some
        &&& marked[spec.position_at(here).neighbor(d, &spec).unwrap().spec_index(&spec)] == seed
    } by {
        if d.index() == dir.index() {
            crate::direction::index_round_trips(d, 0);
            crate::direction::index_round_trips(dir, 0);
        } else {
            lemma_neighbor_round_trip(spec, origin, d);
            lemma_index_in_range(spec, origin.neighbor(d, &spec).unwrap());
        }
    }
}

/// A neighbor of the room being expanded whose label is not above the seed
/// is labelled with the seed already.
proof fn lemma_flood_meet(
    spec: DungeonSpecification,
    rooms: Seq<Room>,
    before: Seq<usize>,
    areas: Seq<usize>,
    stack: Seq<Position>,
    seed: usize,
    here: int,
    dir: Direction,
    next: Position,
)
    requires
        well_formed(&spec, rooms),
        labeled_below(&spec, rooms, before, seed as int),
        before[seed as int] == seed,
        flooding(&spec, rooms, before, areas, stack, seed as int, Some(here)),
        0 <= seed < areas.len(),
        0 <= here < areas.len(),
        linked(&spec, rooms, seed as int, here),
        rooms[here].open(dir),
        spec.position_at(here).neighbor(dir, &spec) == Some(next),
        areas[next.spec_index(&spec)] <= seed,
        sealed_up_to(&spec, rooms, areas, seed as int, here, dir.index() as int),
    ensures
        sealed_up_to(&spec, rooms, areas, seed as int, here, dir.index() + 1),
{
    let origin = spec.position_at(here);
    lemma_index_position_at(spec, here);
    lemma_neighbor_round_trip(spec, origin, dir);
    lemma_index_in_range(spec, next);
    lemma_position_at_index(spec, next);
    let there = next.spec_index(&spec);
    assert(linked(&spec, rooms, seed as int, there)) by {
        assert(open_at(&spec, rooms, origin, dir));
        assert(passage(&spec, rooms, origin, next));
        lemma_connected_extend(spec, rooms, spec.position_at(seed as int), origin, next);
    }
    lemma_component_unclaimed(spec, rooms, before, seed as int, there);
    assert(areas[there] == before[there] || areas[there] == seed);
    assert forall|d: Direction| d.index() < dir.index() + 1 && #[trigger] rooms[here].open(
        d,
    ) implies {
        &&& spec.position_at(here).neighbor(d, &spec) is Some
        &&& areas[spec.position_at(here).neighbor(d, &spec).unwrap().spec_index(&spec)] == seed
    } by {
        if d.index() == dir.index() {
            crate::direction::index_round_trips(d, 0);
            crate::direction::index_round_trips(dir, 0);
        }
    }
}

/// Once the room being expanded has all its faces sealed it needs no more
/// attention.
proof fn lemma_flood_expanded(
    spec: DungeonSpecification,
    rooms: Seq<Room>,
    before: Seq<usize>,
    areas: Seq<usize>,
    stack: Seq<Position>,
    seed: int,
    here: int,
)
    requires
        flooding(&spec, rooms, before, areas, stack, seed, Some(here)),
        sealed_up_to(&spec, rooms, areas, seed, here, DIRECTION_COUNT as int),
    ensures
        flooding(&spec, rooms, before, areas, stack, seed, None),
{
}

/// When the stack has run empty the flood has labelled exactly the
/// component of the seed, and the seed counts as done.
proof fn lemma_flood_complete(
    spec: DungeonSpecification,
    rooms: Seq<Room>,
    before: Seq<usize>,
    areas: Seq<usize>,
    seed: int,
)
    requires
        well_formed(&spec, rooms),
        labeled_below(&spec, rooms, before, seed),
        0 <= seed < before.len(),
        before[seed] == seed,
        flooding(&spec, rooms, before, areas, Seq::<Position>::empty(), seed, None),
    ensures
        labeled_below(&spec, rooms, areas, seed + 1),
{
    let start = spec.position_at(seed);
    lemma_index_position_at(spec, seed);
    let inside = |q: Position| q.in_bounds(&spec) && areas[q.spec_index(&spec)] == seed;
    assert(areas[seed] == seed);
    assert(inside(start));
    assert forall|a: Position, b: Position|
        a.in_bounds(&spec) && inside(a) && #[trigger] passage(&spec, rooms, a, b) implies inside(
        b,
    ) by {
        let i = a.spec_index(&spec);
        lemma_index_in_range(spec, a);
        lemma_position_at_index(spec, a);
        assert(areas[i] == seed);
        assert(!on_stack(&spec, Seq::<Position>::empty(), i));
        assert(sealed_up_to(&spec, rooms, areas, seed, i, DIRECTION_COUNT as int));
        let d = choose|d: Direction| #[trigger]
            open_at(&spec, rooms, a, d) && a.neighbor(d, &spec) == Some(b);
        assert(rooms[i].open(d));
        lemma_neighbor_round_trip(spec, a, d);
    }
    assert forall|i: int| 0 <= i < areas.len() implies (#[trigger] areas[i] == i || areas[i] < seed
        + 1) && linked(&spec, rooms, i, areas[i] as int) by {
        assert(linked(&spec, rooms, i, before[i] as int));
        if areas[i] != before[i] {
            lemma_linked_symmetric(spec, rooms, seed, i);
        }
    }
    assert forall|i: int, j: int|
        0 <= i < areas.len() && 0 <= j < seed + 1 && #[trigger] linked(
            &spec,
            rooms,
            i,
            j,
        ) implies areas[i] <= j by {
        if j == seed {
            lemma_linked_symmetric(spec, rooms, i, seed);
            lemma_index_position_at(spec, i);
            lemma_closed_set_holds_component(spec, rooms, inside, start, spec.position_at(i));
        } else if areas[i] != before[i] {
            lemma_linked_transitive(spec, rooms, seed, i, j);
            assert(before[seed] <= j);
        }
    }
}

/// Labels every room with the lowest index of its component. Seeds are
/// taken in the order of their index; a seed that no lower seed has claimed
/// floods its component along open walls.
pub fn build_connectivity(spec: &DungeonSpecification, rooms: &Vec<Room>) -> (areas: Vec<usize>)
    requires
        well_formed(spec, rooms@),
    ensures
        is_labeling(spec, rooms@, areas@),
{
    let positions = spec.positions();
    let count: usize = positions.len();
    let mut areas: Vec<usize> = Vec::new();
    let mut filled: usize = 0;
    while filled < count
        invariant
            spec.indexable(),
            count == spec.room_count(),
            positions.len() == count,
            forall|k: int|
                0 <= k < count ==> (#[trigger] positions[k]).in_bounds(spec)
                    && positions[k].spec_index(spec) == k,
            filled <= count,
            areas.len() == filled,
            forall|i: int| 0 <= i < filled ==> #[trigger] areas[i] == i,
        decreases count - filled,
    {
        areas.push(positions[filled].index(spec));
        filled += 1;
    }
    proof {
        lemma_labeled_initially(*spec, rooms@, areas@);
    }
    let mut seed: usize = 0;
    while seed < count
        invariant
            well_formed(spec, rooms@),
            count == spec.room_count(),
            positions.len() == count,
            forall|k: int|
                0 <= k < count ==> (#[trigger] positions[k]).in_bounds(spec)
                    && positions[k].spec_index(spec) == k,
            seed <= count,
            labeled_below(spec, rooms@, areas@, seed as int),
        decreases count - seed,
    {
        if areas[seed] < seed {
            proof {
                lemma_seed_claimed(*spec, rooms@, areas@, seed as int);
            }
        } else {
            let ghost before = areas@;
            let mut stack: Vec<Position> = Vec::new();
            stack.push(positions[seed]);
            proof {
                lemma_flood_start(*spec, rooms@, before, seed as int, positions[seed as int]);
                assert(stack@ =~= seq![positions[seed as int]]);
            }
            while stack.len() > 0
                invariant
                    well_formed(spec, rooms@),
                    count == spec.room_count(),
                    seed < count,
                    labeled_below(spec, rooms@, before, seed as int),
                    before[seed as int] == seed,
                    flooding(spec, rooms@, before, areas@, stack@, seed as int, None),
                decreases 2 * pending(areas@, seed as int) + stack.len(),
            {
                let ghost full = stack@;
                let pos = stack.pop().unwrap();
                let here: usize = pos.index(spec);
                proof {
                    lemma_flood_pop(*spec, rooms@, before, areas@, full, seed as int);
                    lemma_position_at_index(*spec, pos);
                    assert(areas@[here as int] == seed);
                    lemma_linked_reflexive(*spec, rooms@, seed as int);
                }
                let ghost budget = 2 * pending(areas@, seed as int) + stack.len();
                let mut side: usize = 0;
                while side < DIRECTION_COUNT
                    invariant
                        well_formed(spec, rooms@),
                        count == spec.room_count(),
                        seed < count,
                        here < count,
                        side <= DIRECTION_COUNT,
                        pos.in_bounds(spec),
                        pos.spec_index(spec) == here,
                        spec.position_at(here as int) == pos,
                        labeled_below(spec, rooms@, before, seed as int),
                        before[seed as int] == seed,
                        linked(spec, rooms@, seed as int, here as int),
                        flooding(
                            spec,
                            rooms@,
                            before,
                            areas@,
                            stack@,
                            seed as int,
                            Some(here as int),
                        ),
                        sealed_up_to(spec, rooms@, areas@, seed as int, here as int, side as int),
                        2 * pending(areas@, seed as int) + stack.len() <= budget,
                    decreases DIRECTION_COUNT - side,
                {
                    let dir = Direction::from_index(side);
                    if rooms[here].is_open(dir) {
                        assert(open_at(spec, rooms@, pos, dir));
                        let next = pos.in_direction(dir, spec).unwrap();
                        let there: usize = next.index(spec);
                        if areas[there] > seed {
                            proof {
                                lemma_flood_mark(
                                    *spec,
                                    rooms@,
                                    before,
                                    areas@,
                                    stack@,
                                    seed,
                                    here as int,
                                    dir,
                                    next,
                                );
                            }
                            areas[there] = seed;
                            stack.push(next);
                        } else {
                            proof {
                                lemma_flood_meet(
                                    *spec,
                                    rooms@,
                                    before,
                                    areas@,
                                    stack@,
                                    seed,
                                    here as int,
                                    dir,
                                    next,
                                );
                            }
                        }
                    } else {
                        proof {
                            assert forall|d: Direction|
                                d.index() < side + 1 && #[trigger] rooms@[here as int].open(
                                    d,
                                ) implies d.index() < side by {
                                if d.index() == side {
                                    crate::direction::index_round_trips(d, 0);
                                    crate::direction::index_round_trips(dir, 0);
                                }
                            }
                        }
                    }
                    side += 1;
                }
                proof {
                    lemma_flood_expanded(
                        *spec,
                        rooms@,
                        before,
                        areas@,
                        stack@,
                        seed as int,
                        here as int,
                    );
                }
            }
            proof {
                assert(stack@ =~= Seq::<Position>::empty());
                lemma_flood_complete(*spec, rooms@, before, areas@, seed as int);
            }
        }
        seed += 1;
    }
    proof {
        lemma_labeled_finally(*spec, rooms@, areas@);
    }
    areas
}

/// Two rooms of a well-formed grid carry the same label exactly when they
/// are connected.
pub proof fn labels_agree_iff_connected(
    spec: DungeonSpecification,
    rooms: Seq<Room>,
    areas: Seq<usize>,
    p: Position,
    q: Position,
)
    requires
        well_formed(&spec, rooms),
        is_labeling(&spec, rooms, areas),
        p.in_bounds(&spec),
        q.in_bounds(&spec),
    ensures
        areas[p.spec_index(&spec)] == areas[q.spec_index(&spec)] <==> connected(
            &spec,
            rooms,
            p,
            q,
        ),
{
    let i = p.spec_index(&spec);
    let j = q.spec_index(&spec);
    lemma_index_in_range(spec, p);
    lemma_index_in_range(spec, q);
    lemma_position_at_index(spec, p);
    lemma_position_at_index(spec, q);
    let low_i = areas[i] as int;
    let low_j = areas[j] as int;
    assert(linked(&spec, rooms, i, low_i));
    assert(linked(&spec, rooms, j, low_j));
    if connected(&spec, rooms, p, q) {
        assert(linked(&spec, rooms, i, j));
        lemma_linked_symmetric(spec, rooms, i, j);
        lemma_linked_transitive(spec, rooms, i, j, low_j);
        lemma_linked_transitive(spec, rooms, j, i, low_i);
    }
    if low_i == low_j {
        lemma_linked_symmetric(spec, rooms, j, low_j);
        lemma_linked_transitive(spec, rooms, i, low_i, j);
    }
}

/// A grid has one labeling only: labelling the same rooms again gives the
/// same labels.
pub proof fn labeling_is_unique(
    spec: DungeonSpecification,
    rooms: Seq<Room>,
    first: Seq<usize>,
    second: Seq<usize>,
)
    requires
        is_labeling(&spec, rooms, first),
        is_labeling(&spec, rooms, second),
    ensures
        first == second,
{
    assert forall|i: int| 0 <= i < first.len() implies first[i] == second[i] by {
        assert(linked(&spec, rooms, i, first[i] as int));
        assert(linked(&spec, rooms, i, second[i] as int));
    }
    assert(first =~= second);
}

/// The first room carries the lowest label there is, and the rooms of a
/// well-formed grid are all connected exactly when they all carry it.
pub proof fn single_label_iff_fully_connected(
    spec: DungeonSpecification,
    rooms: Seq<Room>,
    areas: Seq<usize>,
)
    requires
        well_formed(&spec, rooms),
        is_labeling(&spec, rooms, areas),
    ensures
        0 < areas.len(),
        areas[0] == 0,
        (forall|i: int| 0 <= i < areas.len() ==> #[trigger] areas[i] == areas[0])
            <==> fully_connected(&spec, rooms),
{
    lemma_room_count_positive(spec);
    lemma_linked_reflexive(spec, rooms, 0);
    if forall|i: int| 0 <= i < areas.len() ==> #[trigger] areas[i] == areas[0] {
        assert forall|p: Position, q: Position|
            p.in_bounds(&spec) && q.in_bounds(&spec) implies #[trigger] connected(
            &spec,
            rooms,
            p,
            q,
        ) by {
            lemma_index_in_range(spec, p);
            lemma_index_in_range(spec, q);
            assert(areas[p.spec_index(&spec)] == areas[0]);
            assert(areas[q.spec_index(&spec)] == areas[0]);
            labels_agree_iff_connected(spec, rooms, areas, p, q);
        }
    }
    if fully_connected(&spec, rooms) {
        assert forall|i: int| 0 <= i < areas.len() implies #[trigger] areas[i] == areas[0] by {
            lemma_index_position_at(spec, i);
            lemma_index_position_at(spec, 0);
            assert(connected(&spec, rooms, spec.position_at(i), spec.position_at(0)));
            labels_agree_iff_connected(
                spec,
                rooms,
                areas,
                spec.position_at(i),
                spec.position_at(0),
            );
        }
    }
}

/// Whether every room can be reached from every other.
pub fn is_connected(spec: &DungeonSpecification, rooms: &Vec<Room>) -> (r: bool)
    requires
        well_formed(spec, rooms@),
    ensures
        r == fully_connected(spec, rooms@),
{
    let areas = build_connectivity(spec, rooms);
    proof {
        single_label_iff_fully_connected(*spec, rooms@, areas@);
    }
    let first: usize = areas[0];
    let mut checked: usize = 0;
    while checked < areas.len()
        invariant
            0 < areas.len(),
            checked <= areas.len(),
            first == areas[0],
            forall|i: int| 0 <= i < checked ==> #[trigger] areas[i] == first,
            (forall|i: int| 0 <= i < areas.len() ==> #[trigger] areas[i] == areas[0])
                <==> fully_connected(spec, rooms@),
        decreases areas.len() - checked,
    {
        if areas[checked] != first {
            return false;
        }
        checked += 1;
    }
    true
}

} // verus!
