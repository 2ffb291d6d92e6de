use rand::rngs::StdRng;
use rand::SeedableRng;
use voxel_core::emit::binary_map;
use voxel_core::emit::parse_binary_map;
use voxel_core::emit::text_map;
use voxel_core::generator::SeparationBias;
use voxel_core::grid::DungeonSpecification;
use voxel_core::mapgen::generate_dungeon;
use voxel_core::voxel::Voxel;

fn voxel(x: u16, y: u16, z: u16) -> Voxel {
    Voxel { x, y, z }
}

#[test]
fn text_line_has_x_z_y_and_the_color() {
    assert_eq!(text_map(&vec![voxel(1, 2, 3)]), b"1 3 2 ffffffff\n".to_vec());
    assert_eq!(text_map(&vec![voxel(0, 0, 0)]), b"0 0 0 ffffffff\n".to_vec());
    assert_eq!(text_map(&vec![voxel(65535, 10, 100)]), b"65535 100 10 ffffffff\n".to_vec());
    assert_eq!(text_map(&vec![voxel(9, 99, 1000)]), b"9 1000 99 ffffffff\n".to_vec());
}

#[test]
fn text_map_has_one_line_for_each_voxel() {
    assert!(text_map(&vec![]).is_empty());
    assert_eq!(
        text_map(&vec![voxel(12, 0, 7), voxel(13, 11, 240), voxel(12, 0, 7)]),
        b"12 7 0 ffffffff\n13 240 11 ffffffff\n12 7 0 ffffffff\n".to_vec()
    );
}

#[test]
fn text_map_of_a_dungeon_matches_formatted_lines() {
    let spec = DungeonSpecification::new(3, 4, 2).unwrap();
    let mut rng = StdRng::seed_from_u64(21);
    let voxels = generate_dungeon(spec, &mut rng, &SeparationBias::default());
    let mut expected = String::new();
    for v in voxels.iter() {
        expected.push_str(&format!("{} {} {} ffffffff\n", v.x, v.z, v.y));
    }
    assert_eq!(text_map(&voxels), expected.into_bytes());
}

#[test]
fn binary_map_counts_and_lists_little_endian_records() {
    assert_eq!(binary_map(&vec![]), Some(vec![0, 0, 0, 0]));
    assert_eq!(
        binary_map(&vec![voxel(1, 2, 3), voxel(258, 0, 65535)]),
        Some(vec![2, 0, 0, 0, 1, 0, 2, 0, 3, 0, 2, 1, 0, 0, 255, 255])
    );
    let many = vec![voxel(7, 8, 9); 70000];
    let bytes = binary_map(&many).unwrap();
    assert_eq!(bytes.len(), 4 + 6 * 70000);
    assert_eq!(bytes[..4], [0x70, 0x11, 0x01, 0x00]);
    assert_eq!(bytes[4 + 6 * 69999..], [7, 0, 8, 0, 9, 0]);
}

#[test]
fn parse_reads_what_binary_map_wrote() {
    let spec = DungeonSpecification::new(4, 4, 1).unwrap();
    let mut rng = StdRng::seed_from_u64(8);
    let voxels = generate_dungeon(spec, &mut rng, &SeparationBias::default());
    let bytes = binary_map(&voxels).unwrap();
    assert_eq!(bytes.len(), 4 + 6 * voxels.len());
    assert_eq!(parse_binary_map(&bytes), Some(voxels));
}

#[test]
fn parse_reads_records_in_order() {
    let bytes = vec![2, 0, 0, 0, 1, 0, 2, 0, 3, 0, 2, 1, 0, 0, 255, 255];
    assert_eq!(parse_binary_map(&bytes), Some(vec![voxel(1, 2, 3), voxel(258, 0, 65535)]));
    assert_eq!(parse_binary_map(&vec![0, 0, 0, 0]), Some(vec![]));
}

#[test]
fn parse_ignores_what_follows_the_last_record() {
    let bytes = vec![1, 0, 0, 0, 5, 0, 6, 0, 7, 0, 99, 98, 97];
    assert_eq!(parse_binary_map(&bytes), Some(vec![voxel(5, 6, 7)]));
}

#[test]
fn parse_rejects_a_stream_that_ends_early() {
    assert_eq!(parse_binary_map(&vec![]), None);
    assert_eq!(parse_binary_map(&vec![0, 0, 0]), None);
    assert_eq!(parse_binary_map(&vec![1, 0, 0, 0]), None);
    assert_eq!(parse_binary_map(&vec![1, 0, 0, 0, 5, 0, 6, 0, 7]), None);
    assert_eq!(parse_binary_map(&vec![2, 0, 0, 0, 5, 0, 6, 0, 7, 0]), None);
    assert_eq!(parse_binary_map(&vec![255, 255, 255, 255, 1, 2, 3, 4, 5, 6]), None);
    assert_eq!(parse_binary_map(&vec![0, 0, 0, 1, 1, 2, 3, 4, 5, 6]), None);
}
