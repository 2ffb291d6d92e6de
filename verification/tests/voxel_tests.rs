use rand::rngs::StdRng;
use rand::SeedableRng;
use voxel_core::direction::Direction;
use voxel_core::generator::Generator;
use voxel_core::generator::SeparationBias;
use voxel_core::grid::DungeonSpecification;
use voxel_core::grid::Position;
use voxel_core::grid::Room;
use voxel_core::mapgen::generate_dungeon;
use voxel_core::voxel::fill;
use voxel_core::voxel::has_voxel_space;
use voxel_core::voxel::translate;
use voxel_core::voxel::voxelize;
use voxel_core::voxel::wall;
use voxel_core::voxel::Voxel;
use voxel_core::voxel::ROOM_PITCH;
use voxel_core::voxel::SLAB_VOXELS;

fn voxel(x: u16, y: u16, z: u16) -> Voxel {
    Voxel { x, y, z }
}

fn point(x: u16, y: u16, z: u16) -> Position {
    Position { x, y, z }
}

#[test]
fn fill_lists_the_box_with_x_slowest_and_z_fastest() {
    assert_eq!(
        fill(point(1, 2, 3), point(2, 3, 4)),
        vec![
            voxel(1, 2, 3),
            voxel(1, 2, 4),
            voxel(1, 3, 3),
            voxel(1, 3, 4),
            voxel(2, 2, 3),
            voxel(2, 2, 4),
            voxel(2, 3, 3),
            voxel(2, 3, 4),
        ]
    );
}

#[test]
fn fill_of_one_corner_is_one_voxel() {
    assert_eq!(fill(point(7, 8, 9), point(7, 8, 9)), vec![voxel(7, 8, 9)]);
}

#[test]
fn fill_is_empty_where_the_corners_are_swapped() {
    assert!(fill(point(2, 0, 0), point(1, 5, 5)).is_empty());
    assert!(fill(point(0, 2, 0), point(5, 1, 5)).is_empty());
    assert!(fill(point(0, 0, 2), point(5, 5, 1)).is_empty());
}

#[test]
fn fill_reaches_the_highest_coordinate() {
    let top = u16::MAX;
    assert_eq!(
        fill(point(top - 1, top, top), point(top, top, top)),
        vec![voxel(top - 1, top, top), voxel(top, top, top)]
    );
}

#[test]
fn wall_slabs_lie_on_their_faces() {
    assert_eq!(wall(Direction::North), fill(point(2, 2, 12), point(11, 11, 13)));
    assert_eq!(wall(Direction::South), fill(point(2, 2, 0), point(11, 11, 1)));
    assert_eq!(wall(Direction::East), fill(point(12, 2, 2), point(13, 11, 11)));
    assert_eq!(wall(Direction::West), fill(point(0, 2, 2), point(1, 11, 11)));
}

#[test]
fn wall_slab_is_ten_by_ten_and_two_thick() {
    assert_eq!(SLAB_VOXELS, 200);
    for d in [Direction::North, Direction::South, Direction::East, Direction::West] {
        let slab = wall(d);
        assert_eq!(slab.len(), 200);
        assert!(slab.iter().all(|v| v.x <= 13 && 2 <= v.y && v.y <= 11 && v.z <= 13));
    }
    let north = wall(Direction::North);
    assert_eq!(north[0], voxel(2, 2, 12));
    assert_eq!(north[1], voxel(2, 2, 13));
    assert_eq!(north[2], voxel(2, 3, 12));
    assert_eq!(north[20], voxel(3, 2, 12));
    assert_eq!(north[199], voxel(11, 11, 13));
    let east = wall(Direction::East);
    assert_eq!(east[0], voxel(12, 2, 2));
    assert_eq!(east[1], voxel(12, 2, 3));
    assert_eq!(east[10], voxel(12, 3, 2));
    assert_eq!(east[100], voxel(13, 2, 2));
    assert_eq!(east[199], voxel(13, 11, 11));
}

#[test]
fn closed_shared_wall_is_listed_by_both_rooms() {
    assert_eq!(
        translate(wall(Direction::East), point(0, 0, 0)),
        translate(wall(Direction::West), point(12, 0, 0))
    );
    assert_eq!(
        translate(wall(Direction::North), point(24, 12, 36)),
        translate(wall(Direction::South), point(24, 12, 48))
    );
    let spec = DungeonSpecification::new(2, 1, 1).unwrap();
    let voxels = voxelize(&spec, &vec![Room::closed(); 2]);
    let shared = wall(Direction::East);
    assert_eq!(voxels[400..600], shared[..]);
    assert_eq!(voxels[1400..1600], shared[..]);
}

#[test]
fn translate_moves_every_voxel_by_the_offset() {
    let moved = translate(vec![voxel(0, 0, 0), voxel(1, 2, 3), voxel(13, 11, 13)], point(12, 24, 36));
    assert_eq!(moved, vec![voxel(12, 24, 36), voxel(13, 26, 39), voxel(25, 35, 49)]);
    assert!(translate(vec![], point(1, 1, 1)).is_empty());
    assert_eq!(translate(vec![voxel(65535, 0, 65534)], point(0, 65535, 1)), vec![voxel(65535, 65535, 65535)]);
}

#[test]
fn open_grid_yields_no_voxels() {
    let spec = DungeonSpecification::new(2, 3, 2).unwrap();
    let open = Room { connectivity: [false, false, true, true, true, true] };
    let rooms = vec![open; spec.num_rooms()];
    assert!(voxelize(&spec, &rooms).is_empty());
    let wide_open = vec![Room { connectivity: [true; 6] }; spec.num_rooms()];
    assert!(voxelize(&spec, &wide_open).is_empty());
}

#[test]
fn closed_grid_yields_four_slabs_for_every_room() {
    for (wide, deep, tall) in [(1, 1, 1), (2, 3, 1), (3, 2, 2)] {
        let spec = DungeonSpecification::new(wide, deep, tall).unwrap();
        let rooms = vec![Room::closed(); spec.num_rooms()];
        assert_eq!(voxelize(&spec, &rooms).len(), spec.num_rooms() * 4 * 200);
        let generator = Generator::new(spec);
        assert_eq!(voxelize(&spec, generator.rooms()).len(), spec.num_rooms() * 800);
    }
}

#[test]
fn floors_and_ceilings_have_no_voxels() {
    let spec = DungeonSpecification::new(1, 1, 2).unwrap();
    let closed = vec![Room::closed(); 2];
    let joined = vec![Room::closed().with_open(Direction::Up), Room::closed().with_open(Direction::Down)];
    assert_eq!(voxelize(&spec, &closed), voxelize(&spec, &joined));
}

#[test]
fn voxels_come_room_by_room_and_face_by_face() {
    let spec = DungeonSpecification::new(1, 2, 2).unwrap();
    let rooms = vec![Room::closed(); 4];
    let voxels = voxelize(&spec, &rooms);
    let mut expected = Vec::new();
    for origin in [point(0, 0, 0), point(0, 0, 12), point(0, 12, 0), point(0, 12, 12)] {
        for d in [Direction::North, Direction::South, Direction::East, Direction::West] {
            expected.extend(translate(wall(d), origin));
        }
    }
    assert_eq!(voxels, expected);
    assert_eq!(voxels.len(), 3200);
    assert_eq!(voxels[0], voxel(2, 2, 12));
    assert_eq!(voxels[200], voxel(2, 2, 0));
    assert_eq!(voxels[400], voxel(12, 2, 2));
    assert_eq!(voxels[600], voxel(0, 2, 2));
    assert_eq!(voxels[800], voxel(2, 2, 24));
    assert_eq!(voxels[2 * 800 + 199], voxel(11, 23, 13));
}

#[test]
fn room_origin_is_twelve_voxels_per_room() {
    assert_eq!(ROOM_PITCH, 12);
    let spec = DungeonSpecification::new(3, 4, 5).unwrap();
    let mut rooms = vec![Room { connectivity: [true; 6] }; spec.num_rooms()];
    let p = point(2, 4, 3);
    rooms[p.index(&spec)] = Room { connectivity: [true, true, true, true, true, false] };
    assert_eq!(voxelize(&spec, &rooms), fill(point(24, 50, 38), point(25, 59, 47)));
}

#[test]
fn open_face_leaves_out_its_slab_only() {
    let spec = DungeonSpecification::new(1, 1, 1).unwrap();
    let rooms = vec![Room::closed().with_open(Direction::South)];
    let mut expected = wall(Direction::North);
    expected.extend(wall(Direction::East));
    expected.extend(wall(Direction::West));
    assert_eq!(voxelize(&spec, &rooms), expected);
}

#[test]
fn single_room_has_four_closed_faces() {
    let spec = DungeonSpecification::new(1, 1, 1).unwrap();
    let mut rng = StdRng::seed_from_u64(3);
    let voxels = generate_dungeon(spec, &mut rng, &SeparationBias::default());
    assert_eq!(voxels.len(), 4 * 200);
    let mut expected = wall(Direction::North);
    expected.extend(wall(Direction::South));
    expected.extend(wall(Direction::East));
    expected.extend(wall(Direction::West));
    assert_eq!(voxels, expected);
}

#[test]
fn two_rooms_keep_every_face_but_the_shared_one() {
    let spec = DungeonSpecification::new(2, 1, 1).unwrap();
    let mut rng = StdRng::seed_from_u64(11);
    let voxels = generate_dungeon(spec, &mut rng, &SeparationBias::default());
    let mut expected = Vec::new();
    for d in [Direction::North, Direction::South, Direction::West] {
        expected.extend(wall(d));
    }
    for d in [Direction::North, Direction::South, Direction::East] {
        expected.extend(translate(wall(d), point(12, 0, 0)));
    }
    assert_eq!(voxels, expected);
    assert_eq!(voxels.len(), 6 * 200);
    // Nothing stands in the opening between the two rooms.
    for y in 2..=11 {
        for z in 2..=11 {
            assert!(!voxels.contains(&voxel(12, y, z)));
            assert!(!voxels.contains(&voxel(13, y, z)));
        }
    }
}

#[test]
fn generated_dungeon_has_a_slab_for_every_closed_lateral_face() {
    let spec = DungeonSpecification::new(3, 3, 1).unwrap();
    for seed in 0..100 {
        let mut rng = StdRng::seed_from_u64(seed);
        let voxels = generate_dungeon(spec, &mut rng, &SeparationBias::default());
        assert_eq!(voxels.len() % 200, 0);
        let closed_faces = voxels.len() / 200;
        // Thirty-six lateral faces, two of them opened for each opened wall.
        assert!(36 - 2 * 12 <= closed_faces && closed_faces <= 36 - 2 * 8);
        assert_eq!(closed_faces % 2, 0);
        assert!(voxels.iter().all(|v| v.x < 38 && v.y < 12 && v.z < 38));
    }
}

#[test]
fn generated_dungeon_matches_the_voxels_of_the_generator() {
    let spec = DungeonSpecification::new(4, 3, 2).unwrap();
    let bias = SeparationBias::new(1, 3).unwrap();
    let mut first = StdRng::seed_from_u64(5);
    let mut second = StdRng::seed_from_u64(5);
    let voxels = generate_dungeon(spec, &mut first, &bias);
    let mut generator = Generator::new(spec);
    generator.run(&mut second, &bias);
    assert_eq!(voxels, voxelize(&spec, generator.rooms()));
}

#[test]
fn voxel_space_holds_5461_rooms_along_an_axis() {
    assert!(has_voxel_space(&DungeonSpecification::new(5461, 1, 1).unwrap()));
    assert!(has_voxel_space(&DungeonSpecification::new(1, 5461, 5461).unwrap()));
    assert!(!has_voxel_space(&DungeonSpecification::new(5462, 1, 1).unwrap()));
    assert!(!has_voxel_space(&DungeonSpecification::new(1, 5462, 1).unwrap()));
    assert!(!has_voxel_space(&DungeonSpecification::new(1, 1, 5462).unwrap()));
}

#[test]
fn last_room_of_the_widest_grid_fits_the_coordinates() {
    let spec = DungeonSpecification::new(5461, 1, 1).unwrap();
    let mut rooms = vec![Room { connectivity: [true; 6] }; spec.num_rooms()];
    rooms[5460] = Room { connectivity: [true, true, true, true, false, true] };
    assert_eq!(voxelize(&spec, &rooms), fill(point(65532, 2, 2), point(65533, 11, 11)));
}
