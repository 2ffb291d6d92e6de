use voxel_core::direction::Direction;
use voxel_core::direction::DIRECTION_COUNT;

fn all_directions() -> [Direction; 6] {
    [
        Direction::Up,
        Direction::Down,
        Direction::North,
        Direction::South,
        Direction::East,
        Direction::West,
    ]
}

#[test]
fn opposite_pairs_up_the_axes() {
    assert_eq!(Direction::Up.opposite(), Direction::Down);
    assert_eq!(Direction::Down.opposite(), Direction::Up);
    assert_eq!(Direction::North.opposite(), Direction::South);
    assert_eq!(Direction::South.opposite(), Direction::North);
    assert_eq!(Direction::East.opposite(), Direction::West);
    assert_eq!(Direction::West.opposite(), Direction::East);
}

#[test]
fn opposite_is_an_involution_without_fixed_point() {
    for d in all_directions() {
        assert_eq!(d.opposite().opposite(), d);
        assert_ne!(d.opposite(), d);
    }
}

#[test]
fn opposite_permutes_the_six_directions() {
    let mut hit = [false; 6];
    for d in all_directions() {
        let target = d.opposite().index();
        assert!(!hit[target]);
        hit[target] = true;
    }
    assert!(hit.iter().all(|h| *h));
}

#[test]
fn indices_follow_the_fixed_order() {
    assert_eq!(DIRECTION_COUNT, 6);
    assert_eq!(Direction::Up.index(), 0);
    assert_eq!(Direction::Down.index(), 1);
    assert_eq!(Direction::North.index(), 2);
    assert_eq!(Direction::South.index(), 3);
    assert_eq!(Direction::East.index(), 4);
    assert_eq!(Direction::West.index(), 5);
}

#[test]
fn index_and_from_index_round_trip() {
    for d in all_directions() {
        assert_eq!(Direction::from_index(d.index()), d);
    }
    for idx in 0..DIRECTION_COUNT {
        assert_eq!(Direction::from_index(idx).index(), idx);
    }
}

#[test]
fn lateral_directions_are_the_four_horizontal_ones() {
    assert!(!Direction::Up.is_lateral());
    assert!(!Direction::Down.is_lateral());
    assert!(Direction::North.is_lateral());
    assert!(Direction::South.is_lateral());
    assert!(Direction::East.is_lateral());
    assert!(Direction::West.is_lateral());
}

#[test]
fn forward_directions_are_up_north_east() {
    for d in all_directions() {
        let expected = matches!(d, Direction::Up | Direction::North | Direction::East);
        assert_eq!(d.is_forward(), expected);
        assert_ne!(d.is_forward(), d.opposite().is_forward());
    }
}
