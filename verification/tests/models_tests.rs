use nix_disk_manager::Disk;
use nix_disk_manager::Partition;
use nix_disk_manager::count_visible_disks;
use nix_disk_manager::has_critical_mount_point;
use nix_disk_manager::should_filter_partition;

fn part(path: &str, mounts: Vec<&str>, fs: Option<&str>) -> Partition {
    Partition::new(
        path.to_string(),
        Some(format!("/dev/disk/by-uuid/{}", path.trim_start_matches("/dev/"))),
        mounts.into_iter().map(|m| m.to_string()).collect(),
        fs.map(|f| f.to_string()),
        0,
        None,
    )
}

#[test]
fn adding_present_mount_point_is_a_no_op() {
    let mut p = part("/dev/sda1", vec!["/data"], None);
    p.add_mount_point("/data".to_string());
    assert_eq!(p.mount_points, vec!["/data".to_string()]);
    p.add_mount_point("/backup".to_string());
    assert_eq!(p.mount_points, vec!["/data".to_string(), "/backup".to_string()]);
    p.add_mount_point("/backup".to_string());
    assert_eq!(p.mount_points, vec!["/data".to_string(), "/backup".to_string()]);
}

#[test]
fn removing_mount_point_keeps_the_rest_in_order() {
    let mut p = part("/dev/sda1", vec!["/a", "/b", "/c"], None);
    p.remove_mount_point("/b");
    assert_eq!(p.mount_points, vec!["/a".to_string(), "/c".to_string()]);
    p.remove_mount_point("/missing");
    assert_eq!(p.mount_points, vec!["/a".to_string(), "/c".to_string()]);
}

#[test]
fn disk_owns_partitions_in_insertion_order() {
    let mut d = Disk::new("/dev/sda".to_string(), Vec::new(), 1000);
    d.add_partition(part("/dev/sda1", vec![], None));
    d.add_partition(part("/dev/sda2", vec![], None));
    assert_eq!(d.partitions.len(), 2);
    assert_eq!(d.partitions[0].path, "/dev/sda1".to_string());
    assert_eq!(d.partitions[1].path, "/dev/sda2".to_string());
}

#[test]
fn critical_mount_point_detection_in_lists() {
    let critical = vec!["/data".to_string(), "/boot".to_string()];
    assert!(has_critical_mount_point(&critical));
    let ordinary = vec!["/data".to_string(), "/backup".to_string()];
    assert!(!has_critical_mount_point(&ordinary));
    assert!(!has_critical_mount_point(&Vec::<String>::new()));
}

#[test]
fn partitions_with_critical_mounts_or_swap_are_filtered() {
    assert!(should_filter_partition(&part("/dev/sda1", vec!["/"], Some("ext4"))));
    assert!(should_filter_partition(&part("/dev/sda2", vec![], Some("swap"))));
    assert!(!should_filter_partition(&part("/dev/sda3", vec!["/data"], Some("ext4"))));
    assert!(!should_filter_partition(&part("/dev/sda4", vec![], None)));
}

#[test]
fn visible_disk_count_ignores_system_only_disks() {
    let system_disk = Disk::new(
        "/dev/sda".to_string(),
        vec![part("/dev/sda1", vec!["/"], Some("ext4"))],
        0,
    );
    let data_disk = Disk::new(
        "/dev/sdb".to_string(),
        vec![part("/dev/sdb1", vec!["/data"], Some("ext4"))],
        0,
    );
    let empty_disk = Disk::new("/dev/sdc".to_string(), Vec::new(), 0);
    let disks = vec![system_disk, data_disk, empty_disk];
    assert_eq!(count_visible_disks(&disks), 2);
}
