use personal_site::sizing::{half_extent, round_up_to_4, workgroups, WORKGROUP_SIZE};

#[test]
fn round_up_to_4_values() {
    assert_eq!(round_up_to_4(0), 0);
    assert_eq!(round_up_to_4(5), 8);
    assert_eq!(round_up_to_4(8), 8);
    assert_eq!(round_up_to_4(863), 864);
    assert_eq!(round_up_to_4(u32::MAX - 3), u32::MAX - 3);
}

#[test]
fn workgroups_cover_all_particles() {
    assert_eq!(WORKGROUP_SIZE, 64);
    assert_eq!(workgroups(500_000), 7813);
    assert_eq!(workgroups(200_000), 3125);
    assert_eq!(workgroups(64), 1);
    assert_eq!(workgroups(65), 2);
    assert_eq!(workgroups(0), 0);
}

#[test]
fn half_extent_values() {
    assert_eq!(half_extent(1920), 960);
    assert_eq!(half_extent(7), 3);
    assert_eq!(half_extent(1), 1);
    assert_eq!(half_extent(0), 1);
}
