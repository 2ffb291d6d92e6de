use voxel_core::character::Character;
use voxel_core::character::CharacterSet;
use voxel_core::character::MAX_INSTANCES;
use voxel_core::fpscounter::FpsCounter;
use voxel_core::fpscounter::Frame;
use voxel_core::fpscounter::REPORT_INTERVAL;
use voxel_core::uid::get_next_uid;

#[test]
fn frame_measures_the_time_since_the_frame_before() {
    let mut counter = FpsCounter::new();
    assert_eq!(counter.frame(16_000), Frame { elapsed: 16_000, report: false });
    assert_eq!(counter.frame(49_000), Frame { elapsed: 33_000, report: false });
    assert_eq!(counter.frame(49_000), Frame { elapsed: 0, report: false });
}

#[test]
fn frame_rate_is_due_after_more_than_three_seconds() {
    assert_eq!(REPORT_INTERVAL, 3_000_000_000);
    let mut counter = FpsCounter::new();
    assert!(!counter.frame(2_999_999_999).report);
    assert!(!counter.frame(3_000_000_000).report);
    assert_eq!(counter.frame(3_000_000_001), Frame { elapsed: 1, report: true });
    assert!(!counter.frame(6_000_000_001).report);
    assert!(counter.frame(6_000_000_002).report);
}

#[test]
fn frame_counts_nothing_where_the_clock_went_back() {
    let mut counter = FpsCounter::new();
    assert_eq!(counter.frame(10_000_000_000), Frame { elapsed: 10_000_000_000, report: true });
    assert_eq!(counter.frame(4_000_000_000), Frame { elapsed: 0, report: false });
    assert_eq!(counter.frame(4_000_000_010), Frame { elapsed: 10, report: false });
    assert_eq!(counter.frame(13_000_000_001), Frame { elapsed: 9_000_000_000 - 9, report: true });
}

#[test]
fn characters_get_instance_slots_in_the_order_they_are_added() {
    let mut set = CharacterSet::new();
    assert_eq!(set.len(), 0);
    assert_eq!(set.get(7), None);
    assert_eq!(set.add(7), Character { instance_id: 0 });
    assert_eq!(set.add(3), Character { instance_id: 1 });
    assert_eq!(set.add(900), Character { instance_id: 2 });
    assert_eq!(set.len(), 3);
    assert_eq!(set.instances(), 3);
    assert_eq!(set.get(7), Some(Character { instance_id: 0 }));
    assert_eq!(set.get(3), Some(Character { instance_id: 1 }));
    assert_eq!(set.get(900), Some(Character { instance_id: 2 }));
    assert_eq!(set.get(4), None);
}

#[test]
fn character_added_again_gets_a_new_slot() {
    let mut set = CharacterSet::new();
    set.add(1);
    set.add(2);
    assert_eq!(set.add(1), Character { instance_id: 2 });
    assert_eq!(set.len(), 2);
    assert_eq!(set.instances(), 3);
    assert_eq!(set.get(1), Some(Character { instance_id: 2 }));
    assert_eq!(set.get(2), Some(Character { instance_id: 1 }));
}

#[test]
fn character_set_fills_up_to_its_limit() {
    assert_eq!(MAX_INSTANCES, 256);
    let mut set = CharacterSet::new();
    for id in 0..256 {
        assert_eq!(set.add(id).instance_id, id as usize);
    }
    assert_eq!(set.len(), MAX_INSTANCES);
}

#[test]
fn uids_count_up_from_the_counter() {
    let mut next = 0;
    assert_eq!(get_next_uid(&mut next), 0);
    assert_eq!(get_next_uid(&mut next), 1);
    assert_eq!(get_next_uid(&mut next), 2);
    assert_eq!(next, 3);
}

#[test]
fn uids_start_over_after_the_highest() {
    let mut next = u32::MAX - 1;
    assert_eq!(get_next_uid(&mut next), u32::MAX - 1);
    assert_eq!(get_next_uid(&mut next), u32::MAX);
    assert_eq!(next, 0);
    assert_eq!(get_next_uid(&mut next), 0);
}
