use voxel_core::connectivity::build_connectivity;
use voxel_core::connectivity::is_connected;
use voxel_core::direction::Direction;
use voxel_core::generator::Generator;
use voxel_core::grid::DungeonSpecification;
use voxel_core::grid::Position;
use voxel_core::grid::Room;

fn closed_rooms(spec: &DungeonSpecification) -> Vec<Room> {
    vec![Room::closed(); spec.num_rooms()]
}

fn open_between(spec: &DungeonSpecification, rooms: &mut Vec<Room>, p: Position, d: Direction) {
    let q = p.in_direction(d, spec).unwrap();
    let here = p.index(spec);
    let there = q.index(spec);
    rooms[here] = rooms[here].with_open(d);
    rooms[there] = rooms[there].with_open(d.opposite());
}

fn reachable_by_search(spec: &DungeonSpecification, rooms: &Vec<Room>, from: Position) -> Vec<bool> {
    let mut seen = vec![false; spec.num_rooms()];
    let mut queue = vec![from];
    seen[from.index(spec)] = true;
    while let Some(p) = queue.pop() {
        for idx in 0..6 {
            let d = Direction::from_index(idx);
            if rooms[p.index(spec)].is_open(d) {
                let q = p.in_direction(d, spec).unwrap();
                if !seen[q.index(spec)] {
                    seen[q.index(spec)] = true;
                    queue.push(q);
                }
            }
        }
    }
    seen
}

#[test]
fn closed_grid_labels_every_room_with_its_own_index() {
    let spec = DungeonSpecification::new(2, 3, 2).unwrap();
    let rooms = closed_rooms(&spec);
    let areas = build_connectivity(&spec, &rooms);
    assert_eq!(areas, (0..12).collect::<Vec<usize>>());
    assert!(!is_connected(&spec, &rooms));
}

#[test]
fn label_is_the_lowest_index_of_the_component() {
    // Three rooms wide and two deep, one floor: indices 0..6 with z fastest.
    let spec = DungeonSpecification::new(3, 2, 1).unwrap();
    let mut rooms = closed_rooms(&spec);
    open_between(&spec, &mut rooms, Position { x: 1, y: 0, z: 1 }, Direction::East);
    open_between(&spec, &mut rooms, Position { x: 2, y: 0, z: 0 }, Direction::North);
    open_between(&spec, &mut rooms, Position { x: 0, y: 0, z: 0 }, Direction::North);
    // Components: {0, 1}, {2}, {3, 5, 4}.
    assert_eq!(build_connectivity(&spec, &rooms), vec![0, 0, 2, 3, 3, 3]);
    assert!(!is_connected(&spec, &rooms));
}

#[test]
fn flood_passes_through_rooms_of_higher_and_lower_index() {
    // A corridor 0 - 2 - 3 - 1 in a 2 x 2 floor: room 1 is reached last.
    let spec = DungeonSpecification::new(2, 2, 1).unwrap();
    let mut rooms = closed_rooms(&spec);
    open_between(&spec, &mut rooms, Position { x: 0, y: 0, z: 0 }, Direction::East);
    open_between(&spec, &mut rooms, Position { x: 1, y: 0, z: 0 }, Direction::North);
    assert_eq!(build_connectivity(&spec, &rooms), vec![0, 1, 0, 0]);
    open_between(&spec, &mut rooms, Position { x: 0, y: 0, z: 1 }, Direction::East);
    assert_eq!(build_connectivity(&spec, &rooms), vec![0, 0, 0, 0]);
    assert!(is_connected(&spec, &rooms));
}

#[test]
fn vertical_passages_connect_floors() {
    let spec = DungeonSpecification::new(1, 1, 3).unwrap();
    let mut rooms = closed_rooms(&spec);
    open_between(&spec, &mut rooms, Position { x: 0, y: 1, z: 0 }, Direction::Up);
    assert_eq!(build_connectivity(&spec, &rooms), vec![0, 1, 1]);
    open_between(&spec, &mut rooms, Position { x: 0, y: 1, z: 0 }, Direction::Down);
    assert_eq!(build_connectivity(&spec, &rooms), vec![0, 0, 0]);
    assert!(is_connected(&spec, &rooms));
}

#[test]
fn labelling_again_gives_the_same_labels() {
    let spec = DungeonSpecification::new(4, 4, 2).unwrap();
    let mut generator = Generator::new(spec);
    let mut pick: usize = 7;
    while !generator.is_done() {
        let first = build_connectivity(&spec, generator.rooms());
        let second = build_connectivity(&spec, generator.rooms());
        assert_eq!(first, second);
        generator.step(pick % 3 == 0, pick);
        pick = pick.wrapping_mul(31).wrapping_add(11);
    }
    assert_eq!(build_connectivity(&spec, generator.rooms()), vec![0; 32]);
}

#[test]
fn rooms_share_a_label_exactly_when_one_reaches_the_other() {
    let spec = DungeonSpecification::new(3, 3, 2).unwrap();
    let mut generator = Generator::new(spec);
    let mut pick: usize = 3;
    loop {
        let rooms = generator.rooms();
        let areas = build_connectivity(&spec, rooms);
        for p in spec.positions() {
            let seen = reachable_by_search(&spec, rooms, p);
            for q in spec.positions() {
                let same = areas[p.index(&spec)] == areas[q.index(&spec)];
                assert_eq!(same, seen[q.index(&spec)]);
            }
            let lowest = seen.iter().position(|s| *s).unwrap();
            assert_eq!(areas[p.index(&spec)], lowest);
        }
        if generator.is_done() {
            break;
        }
        generator.step(false, pick);
        pick = pick.wrapping_mul(17).wrapping_add(5);
    }
}

#[test]
fn single_room_is_connected() {
    let spec = DungeonSpecification::new(1, 1, 1).unwrap();
    let rooms = closed_rooms(&spec);
    assert_eq!(build_connectivity(&spec, &rooms), vec![0]);
    assert!(is_connected(&spec, &rooms));
}

#[test]
fn two_rooms_are_connected_once_their_wall_is_open() {
    let spec = DungeonSpecification::new(2, 1, 1).unwrap();
    let mut rooms = closed_rooms(&spec);
    assert!(!is_connected(&spec, &rooms));
    open_between(&spec, &mut rooms, Position { x: 0, y: 0, z: 0 }, Direction::East);
    assert!(is_connected(&spec, &rooms));
}
