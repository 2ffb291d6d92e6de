//! The room grid: its extents, the positions inside it, their row-major
//! numbering, and the per-room record of open faces.

use vstd::prelude::*;
use vstd::arithmetic::div_mod::lemma_fundamental_div_mod;
use vstd::arithmetic::div_mod::lemma_fundamental_div_mod_converse;
use crate::direction::Direction;

verus! {

/// The size of a dungeon, in rooms along each axis. Every extent of a
/// specification is positive.
#[derive(Clone, Copy, Debug)]
pub struct DungeonSpecification {
    rooms_wide: u16,
    rooms_deep: u16,
    rooms_tall: u16,
}

/// Why a specification could not be built.
#[derive(Clone, Copy, Debug, PartialEq, Eq, Structural)]
pub enum SpecificationError {
    /// At least one of the three extents is zero.
    ZeroExtent,
}

impl DungeonSpecification {
    /// Rooms along the x axis.
    pub closed spec fn wide(&self) -> int {
        self.rooms_wide as int
    }

    /// Rooms along the z axis.
    pub closed spec fn deep(&self) -> int {
        self.rooms_deep as int
    }

    /// Rooms along the y axis.
    pub closed spec fn tall(&self) -> int {
        self.rooms_tall as int
    }

    /// Every extent is positive and fits the 16-bit coordinates of a position.
    pub open spec fn valid(&self) -> bool {
        &&& 0 < self.wide() <= u16::MAX
        &&& 0 < self.deep() <= u16::MAX
        &&& 0 < self.tall() <= u16::MAX
    }

    /// Number of rooms in the grid.
    pub open spec fn room_count(&self) -> int {
        self.wide() * self.tall() * self.deep()
    }

    /// The specification is valid and its rooms can be numbered by `usize`.
    pub open spec fn indexable(&self) -> bool {
        self.valid() && self.room_count() <= usize::MAX
    }

    /// Builds a specification, rejecting one with an empty axis.
    pub fn new(rooms_wide: u16, rooms_deep: u16, rooms_tall: u16) -> (r: Result<
        DungeonSpecification,
        SpecificationError,
    >)
        ensures
            r is Err <==> rooms_wide == 0 || rooms_deep == 0 || rooms_tall == 0,
            r matches Err(error) ==> error == SpecificationError::ZeroExtent,
            r matches Ok(spec) ==> spec.valid() && spec.wide() == rooms_wide && spec.deep()
                == rooms_deep && spec.tall() == rooms_tall,
    {
        if rooms_wide == 0 || rooms_deep == 0 || rooms_tall == 0 {
            Err(SpecificationError::ZeroExtent)
        } else {
            Ok(DungeonSpecification { rooms_wide, rooms_deep, rooms_tall })
        }
    }

    /// Rooms along the x axis.
    pub fn rooms_wide(&self) -> (r: u16)
        ensures
            r == self.wide(),
    {
        self.rooms_wide
    }

    /// Rooms along the z axis.
    pub fn rooms_deep(&self) -> (r: u16)
        ensures
            r == self.deep(),
    {
        self.rooms_deep
    }

    /// Rooms along the y axis.
    pub fn rooms_tall(&self) -> (r: u16)
        ensures
            r == self.tall(),
    {
        self.rooms_tall
    }

    /// Whether the rooms can be numbered by `usize` on this machine. The
    /// answer is `true` wherever `usize` has 64 bits.
    pub fn is_indexable(&self) -> (r: bool)
        requires
            self.valid(),
        ensures
            r == self.indexable(),
    {
        assert(self.wide() * self.tall() <= 0xffff * 0xffff) by (nonlinear_arith)
            requires
                0 <= self.wide() <= 0xffff,
                0 <= self.tall() <= 0xffff,
        ;
        let layer: u64 = self.rooms_wide as u64 * self.rooms_tall as u64;
        assert(layer * self.deep() <= 0xffff_ffff * 0xffff) by (nonlinear_arith)
            requires
                0 <= layer <= 0xffff_ffff,
                0 <= self.deep() <= 0xffff,
        ;
        let total: u64 = layer * self.rooms_deep as u64;
        total <= usize::MAX as u64
    }

    /// Number of rooms in the grid.
    pub fn num_rooms(&self) -> (r: usize)
        requires
            self.indexable(),
        ensures
            r == self.room_count(),
    {
        proof {
            lemma_room_count_positive(*self);
        }
        let layer: usize = self.rooms_wide as usize * self.rooms_tall as usize;
        layer * self.rooms_deep as usize
    }

    /// The position numbered `k` in row-major order: x varies slowest, then
    /// y, then z.
    pub open spec fn position_at(&self, k: int) -> Position {
        Position {
            x: ((k / self.deep()) / self.tall()) as u16,
            y: ((k / self.deep()) % self.tall()) as u16,
            z: (k % self.deep()) as u16,
        }
    }

    /// Every position of the grid, in the order of its index.
    pub fn positions(&self) -> (r: Vec<Position>)
        requires
            self.indexable(),
        ensures
            r.len() == self.room_count(),
            forall|k: int| 0 <= k < r.len() ==> #[trigger] r[k] == self.position_at(k),
            forall|k: int|
                0 <= k < r.len() ==> (#[trigger] r[k]).in_bounds(self) && r[k].spec_index(self)
                    == k,
    {
        let mut positions: Vec<Position> = Vec::new();
        let mut x: u16 = 0;
        assert(0 * self.tall() * self.deep() == 0) by (nonlinear_arith);
        while x < self.rooms_wide
            invariant
                self.indexable(),
                x <= self.rooms_wide,
                positions.len() == x * self.tall() * self.deep(),
                forall|k: int|
                    0 <= k < positions.len() ==> (#[trigger] positions[k]).in_bounds(self)
                        && positions[k].spec_index(self) == k,
            decreases self.rooms_wide - x,
        {
            let mut y: u16 = 0;
            while y < self.rooms_tall
                invariant
                    self.indexable(),
                    x < self.rooms_wide,
                    y <= self.rooms_tall,
                    positions.len() == (x * self.tall() + y) * self.deep(),
                    forall|k: int|
                        0 <= k < positions.len() ==> (#[trigger] positions[k]).in_bounds(self)
                            && positions[k].spec_index(self) == k,
                decreases self.rooms_tall - y,
            {
                let mut z: u16 = 0;
                while z < self.rooms_deep
                    invariant
                        self.indexable(),
                        x < self.rooms_wide,
                        y < self.rooms_tall,
                        z <= self.rooms_deep,
                        positions.len() == (x * self.tall() + y) * self.deep() + z,
                        forall|k: int|
                            0 <= k < positions.len() ==> (#[trigger] positions[k]).in_bounds(self)
                                && positions[k].spec_index(self) == k,
                    decreases self.rooms_deep - z,
                {
                    positions.push(Position { x, y, z });
                    z += 1;
                }
                assert((x * self.tall() + y) * self.deep() + self.deep() == (x * self.tall() + (y
                    + 1)) * self.deep()) by (nonlinear_arith);
                y += 1;
            }
            assert((x * self.tall() + self.tall()) * self.deep() == (x + 1) * self.tall()
                * self.deep()) by (nonlinear_arith);
            x += 1;
        }
        proof {
            assert forall|k: int| 0 <= k < positions.len() implies #[trigger] positions[k]
                == self.position_at(k) by {
                lemma_position_at_index(*self, positions[k]);
            }
        }
        positions
    }
}

/// The coordinates of a room in the grid, or of a point in voxel space.
#[derive(Clone, Copy, Debug, PartialEq, Eq, Structural)]
pub struct Position {
    pub x: u16,
    pub y: u16,
    pub z: u16,
}

impl Position {
    /// The position lies inside the grid of `spec`.
    pub open spec fn in_bounds(&self, spec: &DungeonSpecification) -> bool {
        self.x < spec.wide() && self.y < spec.tall() && self.z < spec.deep()
    }

    /// Row-major number of the position: x varies slowest, then y, then z.
    pub open spec fn spec_index(&self, spec: &DungeonSpecification) -> int {
        (self.x * spec.tall() + self.y) * spec.deep() + self.z
    }

    /// The adjacent position in `direction`, where the grid has one.
    pub open spec fn neighbor(&self, direction: Direction, spec: &DungeonSpecification) -> Option<
        Position,
    > {
        match direction {
            Direction::Up => if self.y + 1 < spec.tall() {
                Some(Position { x: self.x, y: (self.y + 1) as u16, z: self.z })
            } else {
                None
            },
            Direction::Down => if self.y > 0 {
                Some(Position { x: self.x, y: (self.y - 1) as u16, z: self.z })
            } else {
                None
            },
            Direction::North => if self.z + 1 < spec.deep() {
                Some(Position { x: self.x, y: self.y, z: (self.z + 1) as u16 })
            } else {
                None
            },
            Direction::South => if self.z > 0 {
                Some(Position { x: self.x, y: self.y, z: (self.z - 1) as u16 })
            } else {
                None
            },
            Direction::East => if self.x + 1 < spec.wide() {
                Some(Position { x: (self.x + 1) as u16, y: self.y, z: self.z })
            } else {
                None
            },
            Direction::West => if self.x > 0 {
                Some(Position { x: (self.x - 1) as u16, y: self.y, z: self.z })
            } else {
                None
            },
        }
    }

    /// Whether the position lies inside the grid of `spec`.
    pub fn is_in_bounds(&self, spec: &DungeonSpecification) -> (r: bool)
        ensures
            r == self.in_bounds(spec),
    {
        self.x < spec.rooms_wide() && self.y < spec.rooms_tall() && self.z < spec.rooms_deep()
    }

    /// Row-major number of the position.
    pub fn index(&self, spec: &DungeonSpecification) -> (r: usize)
        requires
            spec.indexable(),
            self.in_bounds(spec),
        ensures
            r == self.spec_index(spec),
            r < spec.room_count(),
    {
        proof {
            lemma_index_in_range(*spec, *self);
            assert(0 <= self.x * spec.tall() + self.y <= self.spec_index(spec)) by (nonlinear_arith)
                requires
                    0 <= self.x,
                    0 <= self.y,
                    0 <= self.z,
                    0 < spec.tall(),
                    0 < spec.deep(),
                    self.spec_index(spec) == (self.x * spec.tall() + self.y) * spec.deep() + self.z,
            ;
            assert(0 <= self.x * spec.tall() <= self.x * spec.tall() + self.y) by (nonlinear_arith)
                requires
                    0 <= self.x,
                    0 <= self.y,
                    0 < spec.tall(),
            ;
        }
        let row: usize = self.x as usize * spec.rooms_tall() as usize + self.y as usize;
        row * spec.rooms_deep() as usize + self.z as usize
    }

    /// The adjacent position in `direction`, or `None` where the step would
    /// leave the grid.
    pub fn in_direction(&self, direction: Direction, spec: &DungeonSpecification) -> (r: Option<
        Position,
    >)
        requires
            spec.valid(),
            self.in_bounds(spec),
        ensures
            r == self.neighbor(direction, spec),
            r matches Some(q) ==> q.in_bounds(spec),
    {
        match direction {
            Direction::Up => {
                if self.y + 1 < spec.rooms_tall() {
                    Some(Position { x: self.x, y: self.y + 1, z: self.z })
                } else {
                    None
                }
            },
            Direction::Down => {
                if self.y > 0 {
                    Some(Position { x: self.x, y: self.y - 1, z: self.z })
                } else {
                    None
                }
            },
            Direction::North => {
                if self.z + 1 < spec.rooms_deep() {
                    Some(Position { x: self.x, y: self.y, z: self.z + 1 })
                } else {
                    None
                }
            },
            Direction::South => {
                if self.z > 0 {
                    Some(Position { x: self.x, y: self.y, z: self.z - 1 })
                } else {
                    None
                }
            },
            Direction::East => {
                if self.x + 1 < spec.rooms_wide() {
                    Some(Position { x: self.x + 1, y: self.y, z: self.z })
                } else {
                    None
                }
            },
            Direction::West => {
                if self.x > 0 {
                    Some(Position { x: self.x - 1, y: self.y, z: self.z })
                } else {
                    None
                }
            },
        }
    }
}

/// One cell of the grid: for each direction, whether the face in that
/// direction is open. The flags are stored in the order of
/// `Direction::index`.
#[derive(Clone, Copy, Debug)]
pub struct Room {
    pub connectivity: [bool; 6],
}

impl Room {
    /// Whether the face in `direction` is open.
    pub open spec fn open(&self, direction: Direction) -> bool {
        self.connectivity[direction.index() as int]
    }

    /// A room with every face closed.
    pub fn closed() -> (r: Room)
        ensures
            forall|d: Direction| !r.open(d),
    {
        Room { connectivity: [false; 6] }
    }

    /// Whether the face in `direction` is open.
    pub fn is_open(&self, direction: Direction) -> (r: bool)
        ensures
            r == self.open(direction),
    {
        self.connectivity[direction.index()]
    }

    /// The same room with the face in `direction` open.
    pub fn with_open(&self, direction: Direction) -> (r: Room)
        ensures
            forall|d: Direction| r.open(d) == (d == direction || self.open(d)),
    {
        let mut connectivity: [bool; 6] = self.connectivity;
        connectivity[direction.index()] = true;
        proof {
            assert forall|d: Direction| d.index() == direction.index() implies d == direction by {
                crate::direction::index_round_trips(d, 0);
                crate::direction::index_round_trips(direction, 0);
            }
        }
        Room { connectivity }
    }
}

/// Whether the room at `p` has its face in direction `d` open.
pub open spec fn open_at(
    spec: &DungeonSpecification,
    rooms: Seq<Room>,
    p: Position,
    d: Direction,
) -> bool {
    rooms[p.spec_index(spec)].open(d)
}

/// The rooms fill the grid of `spec`, an open face always leads to a room of
/// the grid, and that room has the face towards this one open as well.
pub open spec fn well_formed(spec: &DungeonSpecification, rooms: Seq<Room>) -> bool {
    &&& spec.indexable()
    &&& rooms.len() == spec.room_count()
    &&& forall|p: Position, d: Direction|
        p.in_bounds(spec) && #[trigger] open_at(spec, rooms, p, d) ==> {
            &&& p.neighbor(d, spec) is Some
            &&& open_at(spec, rooms, p.neighbor(d, spec).unwrap(), d.opposite())
        }
}

/// In a well-formed grid the two faces of a wall agree: wherever a room has
/// a neighbor, its face towards the neighbor is open exactly when the
/// neighbor's face towards it is.
pub proof fn lemma_faces_agree(
    spec: DungeonSpecification,
    rooms: Seq<Room>,
    p: Position,
    d: Direction,
)
    requires
        well_formed(&spec, rooms),
        p.in_bounds(&spec),
        p.neighbor(d, &spec) is Some,
    ensures
        open_at(&spec, rooms, p, d) == open_at(
            &spec,
            rooms,
            p.neighbor(d, &spec).unwrap(),
            d.opposite(),
        ),
{
    let q = p.neighbor(d, &spec).unwrap();
    lemma_neighbor_round_trip(spec, p, d);
    crate::direction::opposite_is_involution(d);
    if open_at(&spec, rooms, q, d.opposite()) {
        assert(q.neighbor(d.opposite(), &spec) == Some(p));
        assert(open_at(&spec, rooms, p, d.opposite().opposite()));
    }
}

/// The grid of a valid specification has at least one room.
pub proof fn lemma_room_count_positive(spec: DungeonSpecification)
    requires
        spec.valid(),
    ensures
        0 < spec.wide() * spec.tall() <= spec.room_count(),
        0 < spec.deep() <= spec.room_count(),
{
    assert(0 < spec.wide() * spec.tall() <= spec.wide() * spec.tall() * spec.deep() && spec.deep()
        <= spec.wide() * spec.tall() * spec.deep()) by (nonlinear_arith)
        requires
            0 < spec.wide(),
            0 < spec.tall(),
            0 < spec.deep(),
    ;
}

/// The index of a position inside the grid is below the number of rooms.
pub proof fn lemma_index_in_range(spec: DungeonSpecification, p: Position)
    requires
        spec.valid(),
        p.in_bounds(&spec),
    ensures
        0 <= p.spec_index(&spec) < spec.room_count(),
{
    let (w, t, d) = (spec.wide(), spec.tall(), spec.deep());
    let (x, y, z) = (p.x as int, p.y as int, p.z as int);
    assert(0 <= (x * t + y) * d + z < w * t * d) by (nonlinear_arith)
        requires
            0 <= x < w,
            0 <= y < t,
            0 <= z < d,
    {
        assert(x * t + y <= (w - 1) * t + (t - 1));
        assert((x * t + y) * d <= (w * t - 1) * d);
    }
}

/// Splitting a row-major number: where `b` and `c` lie below their extents
/// `nb` and `nc`, the number `(a * nb + b) * nc + c` divides back into `a`,
/// `b` and `c`.
pub proof fn lemma_row_major_split(a: int, b: int, c: int, nb: int, nc: int)
    requires
        0 <= b < nb,
        0 <= c < nc,
    ensures
        ((a * nb + b) * nc + c) / nc == a * nb + b,
        ((a * nb + b) * nc + c) % nc == c,
        (((a * nb + b) * nc + c) / nc) / nb == a,
        (((a * nb + b) * nc + c) / nc) % nb == b,
{
    let row = a * nb + b;
    lemma_fundamental_div_mod_converse(row * nc + c, nc, row, c);
    lemma_fundamental_div_mod_converse(row, nb, a, b);
}

/// Joining a row-major number: a number below `na * nb * nc` divides into
/// three parts below `na`, `nb` and `nc`, from which it is put together
/// again.
pub proof fn lemma_row_major_join(k: int, na: int, nb: int, nc: int)
    requires
        0 < nb,
        0 < nc,
        0 <= k < na * nb * nc,
    ensures
        0 <= (k / nc) / nb < na,
        0 <= (k / nc) % nb < nb,
        0 <= k % nc < nc,
        (((k / nc) / nb) * nb + (k / nc) % nb) * nc + k % nc == k,
{
    let row = k / nc;
    let (a, b, c) = (row / nb, row % nb, k % nc);
    lemma_fundamental_div_mod(k, nc);
    lemma_fundamental_div_mod(row, nb);
    assert(0 <= row < na * nb) by (nonlinear_arith)
        requires
            0 <= k < na * nb * nc,
            k == nc * row + c,
            0 <= c < nc,
            0 < nc,
    ;
    assert(0 <= a < na) by (nonlinear_arith)
        requires
            0 <= row < na * nb,
            row == nb * a + b,
            0 <= b < nb,
            0 < nb,
    ;
    assert((a * nb + b) * nc + c == k) by (nonlinear_arith)
        requires
            k == nc * row + c,
            row == nb * a + b,
    ;
}

/// Numbering a position and looking the number up again gives the position
/// back.
pub proof fn lemma_position_at_index(spec: DungeonSpecification, p: Position)
    requires
        spec.valid(),
        p.in_bounds(&spec),
    ensures
        spec.position_at(p.spec_index(&spec)) == p,
{
    lemma_row_major_split(p.x as int, p.y as int, p.z as int, spec.tall(), spec.deep());
}

/// Every number below the room count belongs to exactly one position of the
/// grid, the one that `position_at` gives.
pub proof fn lemma_index_position_at(spec: DungeonSpecification, k: int)
    requires
        spec.valid(),
        0 <= k < spec.room_count(),
    ensures
        spec.position_at(k).in_bounds(&spec),
        spec.position_at(k).spec_index(&spec) == k,
{
    lemma_row_major_join(k, spec.wide(), spec.tall(), spec.deep());
}

/// Two positions of the grid with the same index are the same position.
pub proof fn lemma_index_injective(spec: DungeonSpecification, p: Position, q: Position)
    requires
        spec.valid(),
        p.in_bounds(&spec),
        q.in_bounds(&spec),
        p.spec_index(&spec) == q.spec_index(&spec),
    ensures
        p == q,
{
    lemma_position_at_index(spec, p);
    lemma_position_at_index(spec, q);
}

/// Stepping to a neighbor and back in the opposite direction returns to the
/// starting position.
pub proof fn lemma_neighbor_round_trip(spec: DungeonSpecification, p: Position, d: Direction)
    requires
        spec.valid(),
        p.in_bounds(&spec),
        p.neighbor(d, &spec) is Some,
    ensures
        p.neighbor(d, &spec).unwrap().in_bounds(&spec),
        p.neighbor(d, &spec).unwrap().neighbor(d.opposite(), &spec) == Some(p),
        p.neighbor(d, &spec).unwrap() != p,
{
}

} // verus!
