use nix_disk_manager::Disk;
use nix_disk_manager::Partition;
use nix_disk_manager::find_missing_partitions;
use nix_disk_manager::remove_missing_partitions;

fn part(path: &str, uuid: Option<&str>, mounts: Vec<&str>) -> Partition {
    Partition::new(
        path.to_string(),
        uuid.map(|u| u.to_string()),
        mounts.into_iter().map(|m| m.to_string()).collect(),
        None,
        0,
        None,
    )
}

#[test]
fn drift_reports_exactly_the_absent_identity() {
    let a = part("/dev/sda1", Some("u1"), vec!["/a"]);
    let b = part("/dev/sda2", Some("u2"), vec!["/b"]);
    let configured = vec![a, b];
    let live = vec![Disk::new(
        "/dev/sda".to_string(),
        vec![part("/dev/sda1", Some("u1"), vec![])],
        0,
    )];
    let missing = find_missing_partitions(&configured, &live);
    assert_eq!(missing.len(), 1);
    assert_eq!(missing[0].path, "/dev/sda2".to_string());
    assert_eq!(missing[0].uuid_path, Some("u2".to_string()));
}

#[test]
fn drift_preserves_input_order() {
    let configured = vec![
        part("/dev/sda2", Some("u2"), vec![]),
        part("/dev/sda3", Some("u3"), vec![]),
    ];
    let live: Vec<Disk> = Vec::new();
    let missing = find_missing_partitions(&configured, &live);
    assert_eq!(missing.len(), 2);
    assert_eq!(missing[0].uuid_path, Some("u2".to_string()));
    assert_eq!(missing[1].uuid_path, Some("u3".to_string()));
}

#[test]
fn identity_less_partition_is_never_missing() {
    let configured = vec![part("/dev/sda9", None, vec!["/x"])];
    let live: Vec<Disk> = Vec::new();
    let missing = find_missing_partitions(&configured, &live);
    assert_eq!(missing.len(), 0);
}

#[test]
fn identity_less_live_partition_counts_for_nothing() {
    let configured = vec![part("/dev/sda1", Some("u1"), vec![])];
    let live = vec![Disk::new(
        "/dev/sda".to_string(),
        vec![part("/dev/sda1", None, vec![])],
        0,
    )];
    let missing = find_missing_partitions(&configured, &live);
    assert_eq!(missing.len(), 1);
}

#[test]
fn removing_missing_partitions_drops_them_by_path() {
    let mut disks = vec![Disk::new(
        "/dev/sda".to_string(),
        vec![
            part("/dev/sda1", Some("u1"), vec![]),
            part("/dev/sda2", Some("u2"), vec![]),
        ],
        0,
    )];
    let missing = vec![part("/dev/sda2", Some("u2"), vec![])];
    remove_missing_partitions(&mut disks, &missing);
    assert_eq!(disks[0].partitions.len(), 1);
    assert_eq!(disks[0].partitions[0].path, "/dev/sda1".to_string());
}
