use rand::rngs::StdRng;
use rand::SeedableRng;
use voxel_core::connectivity::is_connected;
use voxel_core::direction::Direction;
use voxel_core::generator::Generator;
use voxel_core::generator::GeneratorState;
use voxel_core::generator::SeparationBias;
use voxel_core::generator::Wall;
use voxel_core::grid::DungeonSpecification;
use voxel_core::grid::Position;
use voxel_core::grid::Room;

fn wall_at(x: u16, y: u16, z: u16, direction: Direction) -> Wall {
    Wall { position: Position { x, y, z }, direction }
}

fn adjacent_pairs(wide: usize, deep: usize, tall: usize) -> usize {
    (wide - 1) * deep * tall + wide * (deep - 1) * tall + wide * deep * (tall - 1)
}

fn assert_faces_agree(spec: &DungeonSpecification, rooms: &Vec<Room>) {
    for p in spec.positions() {
        for idx in 0..6 {
            let d = Direction::from_index(idx);
            match p.in_direction(d, spec) {
                Some(q) => assert_eq!(
                    rooms[p.index(spec)].is_open(d),
                    rooms[q.index(spec)].is_open(d.opposite())
                ),
                None => assert!(!rooms[p.index(spec)].is_open(d)),
            }
        }
    }
}

fn open_faces(rooms: &Vec<Room>) -> usize {
    rooms.iter().map(|room| room.connectivity.iter().filter(|open| **open).count()).sum()
}

#[test]
fn new_generator_has_closed_rooms_and_every_candidate_wall() {
    let spec = DungeonSpecification::new(2, 2, 1).unwrap();
    let generator = Generator::new(spec);
    assert_eq!(generator.rooms().len(), 4);
    assert_eq!(open_faces(generator.rooms()), 0);
    assert_eq!(
        generator.walls(),
        &vec![
            wall_at(0, 0, 0, Direction::North),
            wall_at(0, 0, 0, Direction::East),
            wall_at(0, 0, 1, Direction::East),
            wall_at(1, 0, 0, Direction::North),
        ]
    );
    assert!(!generator.is_done());
    assert_eq!(generator.state(), GeneratorState::Generating);
    assert_eq!(generator.spec().rooms_wide(), 2);
}

#[test]
fn candidate_walls_are_listed_up_north_east_for_each_room() {
    let spec = DungeonSpecification::new(2, 2, 2).unwrap();
    let generator = Generator::new(spec);
    let walls = generator.walls();
    assert_eq!(walls.len(), adjacent_pairs(2, 2, 2));
    assert_eq!(walls[0], wall_at(0, 0, 0, Direction::Up));
    assert_eq!(walls[1], wall_at(0, 0, 0, Direction::North));
    assert_eq!(walls[2], wall_at(0, 0, 0, Direction::East));
    assert_eq!(walls[3], wall_at(0, 0, 1, Direction::Up));
    assert_eq!(walls[4], wall_at(0, 0, 1, Direction::East));
    assert_eq!(walls[5], wall_at(0, 1, 0, Direction::North));
    assert_eq!(walls[11], wall_at(1, 1, 0, Direction::North));
}

#[test]
fn number_of_candidate_walls_is_the_number_of_adjacent_pairs() {
    for (wide, deep, tall) in [(1, 1, 1), (2, 1, 1), (3, 3, 1), (4, 2, 3), (15, 15, 1)] {
        let spec = DungeonSpecification::new(wide, deep, tall).unwrap();
        let generator = Generator::new(spec);
        let expected = adjacent_pairs(wide as usize, deep as usize, tall as usize);
        assert_eq!(generator.walls().len(), expected);
    }
}

#[test]
fn open_wall_opens_both_faces_and_drops_the_wall() {
    let spec = DungeonSpecification::new(2, 2, 1).unwrap();
    let mut generator = Generator::new(spec);
    let wall = generator.open_wall(2);
    assert_eq!(wall, wall_at(0, 0, 1, Direction::East));
    assert_eq!(
        generator.walls(),
        &vec![
            wall_at(0, 0, 0, Direction::North),
            wall_at(0, 0, 0, Direction::East),
            wall_at(1, 0, 0, Direction::North),
        ]
    );
    let rooms = generator.rooms();
    assert_eq!(rooms[1].connectivity, [false, false, false, false, true, false]);
    assert_eq!(rooms[3].connectivity, [false, false, false, false, false, true]);
    assert_eq!(rooms[0].connectivity, [false; 6]);
    assert_eq!(rooms[2].connectivity, [false; 6]);
    assert!(!generator.is_done());
}

#[test]
fn unbiased_step_picks_among_all_walls_by_remainder() {
    let spec = DungeonSpecification::new(2, 2, 1).unwrap();
    let mut generator = Generator::new(spec);
    assert_eq!(generator.step(false, 5), wall_at(0, 0, 0, Direction::East));
    assert_eq!(generator.step(false, 5), wall_at(1, 0, 0, Direction::North));
    assert_eq!(generator.walls().len(), 2);
    assert!(!generator.is_done());
    assert_eq!(generator.step(false, 4), wall_at(0, 0, 0, Direction::North));
    assert!(generator.is_done());
    assert_eq!(generator.state(), GeneratorState::Done);
}

#[test]
fn biased_step_picks_among_the_separating_walls() {
    // One floor of three by two rooms; after two steps rooms 0 and 1 and
    // rooms 2 and 3 are joined, and the wall from room 0 to room 2 is the
    // only one between those four rooms that still separates.
    let spec = DungeonSpecification::new(3, 2, 1).unwrap();
    let mut generator = Generator::new(spec);
    assert_eq!(generator.step(false, 0), wall_at(0, 0, 0, Direction::North));
    assert_eq!(generator.step(false, 2), wall_at(1, 0, 0, Direction::North));
    assert_eq!(generator.step(false, 0), wall_at(0, 0, 0, Direction::East));
    // Remaining walls: (0,0,1) East, (1,0,0) East, (1,0,1) East, (2,0,0) North.
    // Rooms 0 to 3 form one component now, rooms 4 and 5 stand alone.
    assert_eq!(generator.separating_walls(), vec![1, 2, 3]);
    assert_eq!(generator.step(true, 4), wall_at(1, 0, 1, Direction::East));
    assert_eq!(generator.separating_walls(), vec![1, 2]);
    assert_eq!(generator.step(true, 2), wall_at(1, 0, 0, Direction::East));
    assert!(generator.is_done());
    assert_eq!(generator.walls().len(), 2);
}

#[test]
fn faces_agree_before_and_after_every_step() {
    let spec = DungeonSpecification::new(3, 2, 3).unwrap();
    let mut generator = Generator::new(spec);
    assert_faces_agree(&spec, generator.rooms());
    let mut pick: usize = 1;
    while !generator.is_done() {
        generator.step(pick % 2 == 0, pick);
        assert_faces_agree(&spec, generator.rooms());
        pick = pick.wrapping_mul(13).wrapping_add(7);
    }
    assert_faces_agree(&spec, generator.rooms());
}

#[test]
fn every_step_takes_one_wall_off_the_list() {
    let spec = DungeonSpecification::new(4, 3, 2).unwrap();
    let mut generator = Generator::new(spec);
    let total = adjacent_pairs(4, 3, 2);
    let mut taken = 0;
    let mut pick: usize = 5;
    while !generator.is_done() {
        let before = generator.walls().clone();
        let wall = generator.step(pick % 4 == 0, pick);
        taken += 1;
        assert!(before.contains(&wall));
        assert!(!generator.walls().contains(&wall));
        assert_eq!(generator.walls().len(), before.len() - 1);
        assert_eq!(open_faces(generator.rooms()), 2 * taken);
        pick = pick.wrapping_mul(29).wrapping_add(3);
    }
    assert!(taken <= total);
    assert_eq!(generator.walls().len(), total - taken);
}

#[test]
fn single_room_needs_no_step() {
    let spec = DungeonSpecification::new(1, 1, 1).unwrap();
    let mut generator = Generator::new(spec);
    assert!(generator.walls().is_empty());
    assert!(generator.is_done());
    assert_eq!(generator.state(), GeneratorState::Done);
    let mut rng = StdRng::seed_from_u64(1);
    assert_eq!(generator.run(&mut rng, &SeparationBias::default()), 0);
    assert_eq!(open_faces(generator.rooms()), 0);
}

#[test]
fn two_rooms_open_their_only_wall() {
    for seed in 0..20 {
        let spec = DungeonSpecification::new(2, 1, 1).unwrap();
        let mut generator = Generator::new(spec);
        assert_eq!(generator.walls(), &vec![wall_at(0, 0, 0, Direction::East)]);
        assert!(!generator.is_done());
        let mut rng = StdRng::seed_from_u64(seed);
        assert_eq!(generator.run(&mut rng, &SeparationBias::default()), 1);
        assert!(generator.is_done());
        assert!(generator.walls().is_empty());
        let rooms = generator.rooms();
        assert_eq!(rooms[0].connectivity, [false, false, false, false, true, false]);
        assert_eq!(rooms[1].connectivity, [false, false, false, false, false, true]);
        assert!(is_connected(&spec, rooms));
    }
}

#[test]
fn three_by_three_always_finishes_within_bounds() {
    let spec = DungeonSpecification::new(3, 3, 1).unwrap();
    let rooms = 9;
    let total = adjacent_pairs(3, 3, 1);
    assert_eq!(total, 12);
    for seed in 0..1000 {
        let mut generator = Generator::new(spec);
        let mut rng = StdRng::seed_from_u64(seed);
        let opened = generator.run(&mut rng, &SeparationBias::default());
        assert!(generator.is_done());
        assert_eq!(generator.state(), GeneratorState::Done);
        assert!(is_connected(&spec, generator.rooms()));
        assert!(rooms - 1 <= opened && opened <= total);
        assert_eq!(generator.walls().len(), total - opened);
        assert_eq!(open_faces(generator.rooms()), 2 * opened);
    }
}

#[test]
fn run_connects_grids_of_several_shapes() {
    for (seed, (wide, deep, tall)) in [(1, 1, 7), (5, 1, 1), (2, 3, 4), (15, 15, 1), (6, 6, 3)]
        .into_iter()
        .enumerate()
    {
        let spec = DungeonSpecification::new(wide, deep, tall).unwrap();
        let mut generator = Generator::new(spec);
        let mut rng = StdRng::seed_from_u64(seed as u64);
        let opened = generator.run(&mut rng, &SeparationBias::default());
        assert!(generator.is_done());
        assert!(is_connected(&spec, generator.rooms()));
        assert_faces_agree(&spec, generator.rooms());
        assert!(opened + 1 >= spec.num_rooms());
        assert!(opened <= adjacent_pairs(wide as usize, deep as usize, tall as usize));
    }
}

#[test]
fn run_leaves_a_finished_generator_alone() {
    let spec = DungeonSpecification::new(3, 3, 2).unwrap();
    let mut generator = Generator::new(spec);
    let mut rng = StdRng::seed_from_u64(99);
    generator.run(&mut rng, &SeparationBias::default());
    let walls = generator.walls().clone();
    let faces = open_faces(generator.rooms());
    assert_eq!(generator.run(&mut rng, &SeparationBias::default()), 0);
    assert_eq!(generator.walls(), &walls);
    assert_eq!(open_faces(generator.rooms()), faces);
}

#[test]
fn full_bias_opens_separating_walls_only() {
    // Every step joins two components, so the layout is a spanning tree.
    let always = SeparationBias::new(1, 1).unwrap();
    let spec = DungeonSpecification::new(4, 4, 1).unwrap();
    for seed in 0..50 {
        let mut generator = Generator::new(spec);
        let mut rng = StdRng::seed_from_u64(seed);
        assert_eq!(generator.run(&mut rng, &always), 15);
    }
}

#[test]
fn no_bias_opens_walls_inside_components_too() {
    let never = SeparationBias::new(0, 1).unwrap();
    let spec = DungeonSpecification::new(4, 4, 1).unwrap();
    let mut most = 0;
    for seed in 0..50 {
        let mut generator = Generator::new(spec);
        let mut rng = StdRng::seed_from_u64(seed);
        let opened = generator.run(&mut rng, &never);
        assert!(15 <= opened && opened <= 24);
        most = most.max(opened);
    }
    assert!(most > 15);
}

#[test]
fn separation_bias_takes_ratios_between_zero_and_one() {
    assert!(SeparationBias::new(0, 1).is_some());
    assert!(SeparationBias::new(1, 10).is_some());
    assert!(SeparationBias::new(10, 10).is_some());
    assert!(SeparationBias::new(u32::MAX, u32::MAX).is_some());
    assert!(SeparationBias::new(11, 10).is_none());
    assert!(SeparationBias::new(0, 0).is_none());
    assert!(SeparationBias::new(1, 0).is_none());
}
