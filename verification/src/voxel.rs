//! The voxelizer: every wall that is still closed becomes a slab of voxels
//! on the face of its room.

use vstd::prelude::*;
use crate::direction::Direction;
use crate::direction::DIRECTION_COUNT;
use crate::grid::DungeonSpecification;
use crate::grid::Position;
use crate::grid::Room;
use crate::grid::lemma_index_position_at;
use crate::grid::lemma_row_major_join;
use crate::grid::lemma_row_major_split;
use crate::grid::open_at;

verus! {

/// A unit cube of wall in voxel space.
#[derive(Clone, Copy, Debug, PartialEq, Eq, Structural)]
pub struct Voxel {
    pub x: u16,
    pub y: u16,
    pub z: u16,
}

/// Voxels from one room to the next along each axis: two of wall, which
/// the room shares with its neighbor, and ten of interior.
pub const ROOM_PITCH: u16 = 12;

/// First coordinate of the interior of a room, counted from its origin.
pub const INTERIOR_LOW: u16 = 2;

/// Last coordinate of the interior of a room.
pub const INTERIOR_HIGH: u16 = 11;

/// Last coordinate of the wall on the low side of a room; the wall begins
/// at the origin.
pub const NEAR_WALL_HIGH: u16 = 1;

/// First coordinate of the wall on the high side of a room.
pub const FAR_WALL_LOW: u16 = 12;

/// Last coordinate of the wall on the high side of a room.
pub const FAR_WALL_HIGH: u16 = 13;

/// Number of voxels in the slab of one face: ten by ten, two thick.
pub const SLAB_VOXELS: usize = 200;

/// Number of coordinates from `lo` to `hi`, both included.
pub open spec fn span(lo: int, hi: int) -> int {
    if lo <= hi {
        hi - lo + 1
    } else {
        0
    }
}

/// Number of voxels in the box between the corners `p1` and `p2`.
pub open spec fn fill_len(p1: Position, p2: Position) -> int {
    span(p1.x as int, p2.x as int) * span(p1.y as int, p2.y as int) * span(
        p1.z as int,
        p2.z as int,
    )
}

/// The voxel at place `k` of the box between `p1` and `p2`: x varies
/// slowest, then y, then z.
pub open spec fn fill_at(p1: Position, p2: Position, k: int) -> Voxel {
    let ny = span(p1.y as int, p2.y as int);
    let nz = span(p1.z as int, p2.z as int);
    Voxel {
        x: (p1.x + (k / nz) / ny) as u16,
        y: (p1.y + (k / nz) % ny) as u16,
        z: (p1.z + k % nz) as u16,
    }
}

/// Every voxel of the box between the corners `p1` and `p2`, both included.
/// The box is empty where `p2` lies below `p1` along some axis.
pub open spec fn filled(p1: Position, p2: Position) -> Seq<Voxel> {
    Seq::new(fill_len(p1, p2) as nat, |k: int| fill_at(p1, p2, k))
}

/// The corner of the slab of `direction` with the lowest coordinates, in
/// the voxel space of one room.
pub open spec fn slab_low(direction: Direction) -> Position {
    match direction {
        Direction::North => Position { x: INTERIOR_LOW, y: INTERIOR_LOW, z: FAR_WALL_LOW },
        Direction::South => Position { x: INTERIOR_LOW, y: INTERIOR_LOW, z: 0 },
        Direction::East => Position { x: FAR_WALL_LOW, y: INTERIOR_LOW, z: INTERIOR_LOW },
        _ => Position { x: 0, y: INTERIOR_LOW, z: INTERIOR_LOW },
    }
}

/// The corner of the slab of `direction` with the highest coordinates.
pub open spec fn slab_high(direction: Direction) -> Position {
    match direction {
        Direction::North => Position { x: INTERIOR_HIGH, y: INTERIOR_HIGH, z: FAR_WALL_HIGH },
        Direction::South => Position { x: INTERIOR_HIGH, y: INTERIOR_HIGH, z: NEAR_WALL_HIGH },
        Direction::East => Position { x: FAR_WALL_HIGH, y: INTERIOR_HIGH, z: INTERIOR_HIGH },
        _ => Position { x: NEAR_WALL_HIGH, y: INTERIOR_HIGH, z: INTERIOR_HIGH },
    }
}

/// The slab that closes the face in `direction`, in the voxel space of one
/// room: two voxels thick, across the interior of the room. The slab on
/// the high side of a room lies where the slab on the low side of its
/// neighbor lies. Floors and ceilings have no slab.
pub open spec fn slab(direction: Direction) -> Seq<Voxel> {
    if direction.is_lateral() {
        filled(slab_low(direction), slab_high(direction))
    } else {
        Seq::empty()
    }
}

/// `voxel` moved by `offset`.
pub open spec fn shift(voxel: Voxel, offset: Position) -> Voxel {
    Voxel {
        x: (voxel.x + offset.x) as u16,
        y: (voxel.y + offset.y) as u16,
        z: (voxel.z + offset.z) as u16,
    }
}

/// Every voxel of `voxels` moved by `offset`.
pub open spec fn shifted(voxels: Seq<Voxel>, offset: Position) -> Seq<Voxel> {
    Seq::new(voxels.len(), |k: int| shift(voxels[k], offset))
}

/// Every coordinate of every voxel stays a 16-bit number when moved by
/// `offset`.
pub open spec fn shift_fits(voxels: Seq<Voxel>, offset: Position) -> bool {
    forall|k: int|
        0 <= k < voxels.len() ==> (#[trigger] voxels[k]).x + offset.x <= u16::MAX && voxels[k].y
            + offset.y <= u16::MAX && voxels[k].z + offset.z <= u16::MAX
}

/// The voxel space of the whole grid fits 16-bit coordinates.
pub open spec fn voxels_fit(spec: &DungeonSpecification) -> bool {
    &&& ROOM_PITCH * (spec.wide() - 1) + FAR_WALL_HIGH <= u16::MAX
    &&& ROOM_PITCH * (spec.tall() - 1) + INTERIOR_HIGH <= u16::MAX
    &&& ROOM_PITCH * (spec.deep() - 1) + FAR_WALL_HIGH <= u16::MAX
}

/// Where the voxel space of the room at `p` begins.
pub open spec fn room_origin(p: Position) -> Position {
    Position {
        x: (ROOM_PITCH * p.x) as u16,
        y: (ROOM_PITCH * p.y) as u16,
        z: (ROOM_PITCH * p.z) as u16,
    }
}

/// The voxels of the face of room `p` in direction `d`: its slab, moved to
/// the room, where the face is closed and lateral.
pub open spec fn face_voxels(
    spec: &DungeonSpecification,
    rooms: Seq<Room>,
    p: Position,
    d: Direction,
) -> Seq<Voxel> {
    if d.is_lateral() && !open_at(spec, rooms, p, d) {
        shifted(slab(d), room_origin(p))
    } else {
        Seq::empty()
    }
}

/// The voxels of the faces of room `p` in the directions whose index lies
/// below `sides`, in the order of the directions.
pub open spec fn faces_below(
    spec: &DungeonSpecification,
    rooms: Seq<Room>,
    p: Position,
    sides: int,
) -> Seq<Voxel>
    decreases sides,
{
    if sides <= 0 {
        Seq::empty()
    } else {
        faces_below(spec, rooms, p, sides - 1) + face_voxels(
            spec,
            rooms,
            p,
            Direction::from_index((sides - 1) as usize),
        )
    }
}

/// The voxels of room `p`: those of its north, south, east and west face.
pub open spec fn room_voxels(spec: &DungeonSpecification, rooms: Seq<Room>, p: Position) -> Seq<
    Voxel,
> {
    faces_below(spec, rooms, p, DIRECTION_COUNT as int)
}

/// The voxels of the first `count` rooms, room after room.
pub open spec fn voxels_below(spec: &DungeonSpecification, rooms: Seq<Room>, count: int) -> Seq<
    Voxel,
>
    decreases count,
{
    if count <= 0 {
        Seq::empty()
    } else {
        voxels_below(spec, rooms, count - 1) + room_voxels(
            spec,
            rooms,
            spec.position_at(count - 1),
        )
    }
}

/// The voxels of the whole grid: room after room in the order of the
/// index, and within a room face after face in the order of the directions.
pub open spec fn voxels_of(spec: &DungeonSpecification, rooms: Seq<Room>) -> Seq<Voxel> {
    voxels_below(spec, rooms, spec.room_count())
}

/// Every voxel of a box lies between its corners.
pub proof fn lemma_filled_within(p1: Position, p2: Position, k: int)
    requires
        0 <= k < fill_len(p1, p2),
    ensures
        p1.x <= fill_at(p1, p2, k).x <= p2.x,
        p1.y <= fill_at(p1, p2, k).y <= p2.y,
        p1.z <= fill_at(p1, p2, k).z <= p2.z,
{
    let nx = span(p1.x as int, p2.x as int);
    let ny = span(p1.y as int, p2.y as int);
    let nz = span(p1.z as int, p2.z as int);
    assert(ny > 0 && nz > 0) by (nonlinear_arith)
        requires
            0 <= k < nx * ny * nz,
            0 <= nx,
            0 <= ny,
            0 <= nz,
    ;
    lemma_row_major_join(k, nx, ny, nz);
}

/// The slab of a lateral face has 200 voxels, none of them beyond the wall
/// on the high side of the room.
pub proof fn lemma_slab_shape(d: Direction)
    requires
        d.is_lateral(),
    ensures
        slab(d).len() == SLAB_VOXELS,
        forall|k: int|
            0 <= k < slab(d).len() ==> (#[trigger] slab(d)[k]).x <= FAR_WALL_HIGH && slab(d)[k].y
                <= INTERIOR_HIGH && slab(d)[k].z <= FAR_WALL_HIGH,
{
    assert(fill_len(slab_low(d), slab_high(d)) == 200) by {
        assert(10 * 10 * 2 == 200 && 2 * 10 * 10 == 200);
    }
    assert forall|k: int| 0 <= k < slab(d).len() implies (#[trigger] slab(d)[k]).x <= FAR_WALL_HIGH
        && slab(d)[k].y <= INTERIOR_HIGH && slab(d)[k].z <= FAR_WALL_HIGH by {
        lemma_filled_within(slab_low(d), slab_high(d), k);
    }
}

/// The box of voxels between the corners `p1` and `p2`, both included.
pub fn fill(p1: Position, p2: Position) -> (voxels: Vec<Voxel>)
    ensures
        voxels@ == filled(p1, p2),
{
    let mut voxels: Vec<Voxel> = Vec::new();
    let ghost nx = span(p1.x as int, p2.x as int);
    let ghost ny = span(p1.y as int, p2.y as int);
    let ghost nz = span(p1.z as int, p2.z as int);
    if p1.x > p2.x || p1.y > p2.y || p1.z > p2.z {
        assert(nx * ny * nz == 0) by (nonlinear_arith)
            requires
                nx == 0 || ny == 0 || nz == 0,
        ;
        assert(voxels@ =~= filled(p1, p2));
        return voxels;
    }
    let mut x: u32 = p1.x as u32;
    assert(0 * ny * nz == 0) by (nonlinear_arith);
    while x <= p2.x as u32
        invariant
            p1.x <= p2.x,
            p1.y <= p2.y,
            p1.z <= p2.z,
            nx == span(p1.x as int, p2.x as int),
            ny == span(p1.y as int, p2.y as int),
            nz == span(p1.z as int, p2.z as int),
            p1.x <= x <= p2.x + 1,
            voxels.len() == (x - p1.x) * ny * nz,
            forall|k: int| 0 <= k < voxels.len() ==> #[trigger] voxels[k] == fill_at(p1, p2, k),
        decreases p2.x + 1 - x,
    {
        let mut y: u32 = p1.y as u32;
        while y <= p2.y as u32
            invariant
                p1.x <= p2.x,
                p1.y <= p2.y,
                p1.z <= p2.z,
                nx == span(p1.x as int, p2.x as int),
                ny == span(p1.y as int, p2.y as int),
                nz == span(p1.z as int, p2.z as int),
                p1.x <= x <= p2.x,
                p1.y <= y <= p2.y + 1,
                voxels.len() == ((x - p1.x) * ny + (y - p1.y)) * nz,
                forall|k: int| 0 <= k < voxels.len() ==> #[trigger] voxels[k] == fill_at(p1, p2, k),
            decreases p2.y + 1 - y,
        {
            let mut z: u32 = p1.z as u32;
            while z <= p2.z as u32
                invariant
                    p1.x <= p2.x,
                    p1.y <= p2.y,
                    p1.z <= p2.z,
                    nx == span(p1.x as int, p2.x as int),
                    ny == span(p1.y as int, p2.y as int),
                    nz == span(p1.z as int, p2.z as int),
                    p1.x <= x <= p2.x,
                    p1.y <= y <= p2.y,
                    p1.z <= z <= p2.z + 1,
                    voxels.len() == ((x - p1.x) * ny + (y - p1.y)) * nz + (z - p1.z),
                    forall|k: int|
                        0 <= k < voxels.len() ==> #[trigger] voxels[k] == fill_at(p1, p2, k),
                decreases p2.z + 1 - z,
            {
                proof {
                    lemma_row_major_split(x - p1.x, y - p1.y, z - p1.z, ny, nz);
                }
                voxels.push(Voxel { x: x as u16, y: y as u16, z: z as u16 });
                z += 1;
            }
            assert(((x - p1.x) * ny + (y - p1.y)) * nz + nz == ((x - p1.x) * ny + (y + 1 - p1.y))
                * nz) by (nonlinear_arith);
            y += 1;
        }
        assert(((x - p1.x) * ny + ny) * nz == (x + 1 - p1.x) * ny * nz) by (nonlinear_arith);
        x += 1;
    }
    assert(voxels@ =~= filled(p1, p2));
    voxels
}

/// The slab that closes the face in `direction`. Floors and ceilings are
/// not built: the direction has to be lateral.
pub fn wall(direction: Direction) -> (voxels: Vec<Voxel>)
    requires
        direction.is_lateral(),
    ensures
        voxels@ == slab(direction),
{
    match direction {
        Direction::North => fill(
            Position { x: INTERIOR_LOW, y: INTERIOR_LOW, z: FAR_WALL_LOW },
            Position { x: INTERIOR_HIGH, y: INTERIOR_HIGH, z: FAR_WALL_HIGH },
        ),
        Direction::South => fill(
            Position { x: INTERIOR_LOW, y: INTERIOR_LOW, z: 0 },
            Position { x: INTERIOR_HIGH, y: INTERIOR_HIGH, z: NEAR_WALL_HIGH },
        ),
        Direction::East => fill(
            Position { x: FAR_WALL_LOW, y: INTERIOR_LOW, z: INTERIOR_LOW },
            Position { x: FAR_WALL_HIGH, y: INTERIOR_HIGH, z: INTERIOR_HIGH },
        ),
        _ => fill(
            Position { x: 0, y: INTERIOR_LOW, z: INTERIOR_LOW },
            Position { x: NEAR_WALL_HIGH, y: INTERIOR_HIGH, z: INTERIOR_HIGH },
        ),
    }
}

/// Moves every voxel by `offset`.
pub fn translate(voxels: Vec<Voxel>, offset: Position) -> (moved: Vec<Voxel>)
    requires
        shift_fits(voxels@, offset),
    ensures
        moved@ == shifted(voxels@, offset),
{
    let mut moved: Vec<Voxel> = Vec::new();
    let mut k: usize = 0;
    while k < voxels.len()
        invariant
            shift_fits(voxels@, offset),
            k <= voxels.len(),
            moved.len() == k,
            forall|j: int| 0 <= j < k ==> #[trigger] moved[j] == shift(voxels[j], offset),
        decreases voxels.len() - k,
    {
        let voxel = voxels[k];
        moved.push(
            Voxel { x: voxel.x + offset.x, y: voxel.y + offset.y, z: voxel.z + offset.z },
        );
        k += 1;
    }
    assert(moved@ =~= shifted(voxels@, offset));
    moved
}

/// Whether the voxel space of the whole grid fits 16-bit coordinates.
pub fn has_voxel_space(spec: &DungeonSpecification) -> (r: bool)
    ensures
        r == voxels_fit(spec),
{
    let limit: u16 = 5461;
    spec.rooms_wide() <= limit && spec.rooms_tall() <= limit && spec.rooms_deep() <= limit
}

/// The voxels of the closed lateral faces of every room. A closed wall
/// between two rooms is listed twice, once for each of the rooms.
pub fn voxelize(spec: &DungeonSpecification, rooms: &Vec<Room>) -> (voxels: Vec<Voxel>)
    requires
        spec.indexable(),
        voxels_fit(spec),
        rooms.len() == spec.room_count(),
    ensures
        voxels@ == voxels_of(spec, rooms@),
{
    let positions = spec.positions();
    let mut voxels: Vec<Voxel> = Vec::new();
    let mut k: usize = 0;
    while k < positions.len()
        invariant
            spec.indexable(),
            voxels_fit(spec),
            rooms.len() == spec.room_count(),
            positions.len() == spec.room_count(),
            forall|i: int| 0 <= i < positions.len() ==> #[trigger] positions[i] == spec.position_at(i),
            forall|i: int|
                0 <= i < positions.len() ==> (#[trigger] positions[i]).in_bounds(spec)
                    && positions[i].spec_index(spec) == i,
            k <= positions.len(),
            voxels@ == voxels_below(spec, rooms@, k as int),
        decreases positions.len() - k,
    {
        let position = positions[k];
        let origin = Position {
            x: position.x * ROOM_PITCH,
            y: position.y * ROOM_PITCH,
            z: position.z * ROOM_PITCH,
        };
        let mut side: usize = 0;
        assert(voxels@ + faces_below(spec, rooms@, position, 0) =~= voxels@);
        while side < DIRECTION_COUNT
            invariant
                spec.indexable(),
                voxels_fit(spec),
                rooms.len() == spec.room_count(),
                k < spec.room_count(),
                position.in_bounds(spec),
                position.spec_index(spec) == k,
                origin == room_origin(position),
                side <= DIRECTION_COUNT,
                voxels@ == voxels_below(spec, rooms@, k as int) + faces_below(
                    spec,
                    rooms@,
                    position,
                    side as int,
                ),
            decreases DIRECTION_COUNT - side,
        {
            let direction = Direction::from_index(side);
            let ghost earlier = voxels@;
            if direction.is_lateral() && !rooms[k].is_open(direction) {
                let piece = wall(direction);
                proof {
                    lemma_slab_shape(direction);
                }
                let mut piece = translate(piece, origin);
                voxels.append(&mut piece);
            }
            proof {
                let lower = faces_below(spec, rooms@, position, side as int);
                let face = face_voxels(spec, rooms@, position, direction);
                assert(voxels@ =~= earlier + face);
                assert(earlier + face =~= voxels_below(spec, rooms@, k as int) + (lower + face));
            }
            side += 1;
        }
        k += 1;
    }
    voxels
}

/// Every lateral face of every room is open.
pub open spec fn all_lateral_open(spec: &DungeonSpecification, rooms: Seq<Room>) -> bool {
    forall|p: Position, d: Direction|
        p.in_bounds(spec) && d.is_lateral() ==> #[trigger] open_at(spec, rooms, p, d)
}

/// Every lateral face of every room is closed.
pub open spec fn all_lateral_closed(spec: &DungeonSpecification, rooms: Seq<Room>) -> bool {
    forall|p: Position, d: Direction|
        p.in_bounds(spec) && d.is_lateral() ==> !#[trigger] open_at(spec, rooms, p, d)
}

/// A room has four slabs at most; it has none where its lateral faces are
/// all open and four where they are all closed.
proof fn lemma_room_voxel_count(spec: DungeonSpecification, rooms: Seq<Room>, p: Position)
    ensures
        room_voxels(&spec, rooms, p).len() <= 4 * SLAB_VOXELS,
        (forall|d: Direction| d.is_lateral() ==> open_at(&spec, rooms, p, d)) ==> room_voxels(
            &spec,
            rooms,
            p,
        ).len() == 0,
        (forall|d: Direction| d.is_lateral() ==> !open_at(&spec, rooms, p, d)) ==> room_voxels(
            &spec,
            rooms,
            p,
        ).len() == 4 * SLAB_VOXELS,
{
    reveal_with_fuel(faces_below, 7);
    lemma_slab_shape(Direction::North);
    lemma_slab_shape(Direction::South);
    lemma_slab_shape(Direction::East);
    lemma_slab_shape(Direction::West);
}

proof fn lemma_voxel_count_below(spec: DungeonSpecification, rooms: Seq<Room>, count: int)
    requires
        spec.valid(),
        0 <= count <= spec.room_count(),
    ensures
        voxels_below(&spec, rooms, count).len() <= 4 * SLAB_VOXELS * count,
        all_lateral_open(&spec, rooms) ==> voxels_below(&spec, rooms, count).len() == 0,
        all_lateral_closed(&spec, rooms) ==> voxels_below(&spec, rooms, count).len() == 4
            * SLAB_VOXELS * count,
    decreases count,
{
    if count > 0 {
        let p = spec.position_at(count - 1);
        lemma_voxel_count_below(spec, rooms, count - 1);
        lemma_index_position_at(spec, count - 1);
        lemma_room_voxel_count(spec, rooms, p);
        if all_lateral_open(&spec, rooms) {
            assert forall|d: Direction| d.is_lateral() implies open_at(&spec, rooms, p, d) by {}
        }
        if all_lateral_closed(&spec, rooms) {
            assert forall|d: Direction| d.is_lateral() implies !open_at(&spec, rooms, p, d) by {}
        }
    }
}

/// A grid whose lateral faces are all open has no voxels.
pub proof fn open_grid_has_no_voxels(spec: DungeonSpecification, rooms: Seq<Room>)
    requires
        spec.valid(),
        all_lateral_open(&spec, rooms),
    ensures
        voxels_of(&spec, rooms) == Seq::<Voxel>::empty(),
{
    lemma_voxel_count_below(spec, rooms, spec.room_count());
    crate::grid::lemma_room_count_positive(spec);
    assert(voxels_of(&spec, rooms) =~= Seq::<Voxel>::empty());
}

/// A grid whose lateral faces are all closed has the slabs of all four
/// lateral faces of every room, and no grid of the same size has more
/// voxels than that.
pub proof fn closed_grid_has_most_voxels(
    spec: DungeonSpecification,
    closed: Seq<Room>,
    other: Seq<Room>,
)
    requires
        spec.valid(),
        all_lateral_closed(&spec, closed),
    ensures
        voxels_of(&spec, closed).len() == 4 * SLAB_VOXELS * spec.room_count(),
        voxels_of(&spec, other).len() <= voxels_of(&spec, closed).len(),
{
    crate::grid::lemma_room_count_positive(spec);
    lemma_voxel_count_below(spec, closed, spec.room_count());
    lemma_voxel_count_below(spec, other, spec.room_count());
}

/// The two rooms beside a lateral wall give it the same slab: the slab of
/// the face of `p` in direction `d` and the slab of the face of its
/// neighbor in the opposite direction are the same voxels in the same
/// order.
pub proof fn shared_wall_has_one_slab(spec: DungeonSpecification, p: Position, d: Direction)
    requires
        spec.valid(),
        voxels_fit(&spec),
        p.in_bounds(&spec),
        d.is_lateral(),
        p.neighbor(d, &spec) is Some,
    ensures
        shifted(slab(d), room_origin(p)) == shifted(
            slab(d.opposite()),
            room_origin(p.neighbor(d, &spec).unwrap()),
        ),
{
    let q = p.neighbor(d, &spec).unwrap();
    let here = shifted(slab(d), room_origin(p));
    let there = shifted(slab(d.opposite()), room_origin(q));
    lemma_slab_shape(d);
    lemma_slab_shape(d.opposite());
    assert forall|k: int| 0 <= k < here.len() implies here[k] == there[k] by {
        lemma_filled_within(slab_low(d), slab_high(d), k);
        lemma_filled_within(slab_low(d.opposite()), slab_high(d.opposite()), k);
    }
    assert(here =~= there);
}

} // verus!
