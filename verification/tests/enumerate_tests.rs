use nix_disk_manager::Partition;
use nix_disk_manager::ProbedDevice;
use nix_disk_manager::enumerate_disks;

fn probed(path: &str, size: u64, fs: Option<&str>, label: Option<&str>, uuid: Option<&str>) -> ProbedDevice {
    ProbedDevice {
        path: path.to_string(),
        size,
        fs_type: fs.map(|s| s.to_string()),
        label: label.map(|s| s.to_string()),
        uuid: uuid.map(|s| s.to_string()),
    }
}

#[test]
fn classification_disk_then_partitions() {
    let devices = vec![
        probed("/dev/sda", 1000, None, None, None),
        probed("/dev/sda1", 300, Some("ext4"), None, Some("U1")),
        probed("/dev/sda2", 700, Some("btrfs"), Some("big"), Some("U2")),
    ];
    let index: Vec<Partition> = Vec::new();
    let disks = enumerate_disks(&devices, &index);
    assert_eq!(disks.len(), 1);
    assert_eq!(disks[0].path, "/dev/sda".to_string());
    assert_eq!(disks[0].size, 1000);
    assert_eq!(disks[0].partitions.len(), 2);
    assert_eq!(disks[0].partitions[0].path, "/dev/sda1".to_string());
    assert_eq!(disks[0].partitions[0].uuid_path, Some("/dev/disk/by-uuid/U1".to_string()));
    assert_eq!(disks[0].partitions[0].size, 300);
    assert_eq!(disks[0].partitions[1].path, "/dev/sda2".to_string());
    assert_eq!(disks[0].partitions[1].fs_type, Some("btrfs".to_string()));
    assert_eq!(disks[0].partitions[1].label, Some("big".to_string()));
}

#[test]
fn two_disks_stay_separate() {
    let devices = vec![
        probed("/dev/sda", 1000, None, None, None),
        probed("/dev/sda1", 300, None, None, Some("U1")),
        probed("/dev/sdb", 2000, None, None, None),
        probed("/dev/sdb1", 900, None, None, Some("U2")),
    ];
    let index: Vec<Partition> = Vec::new();
    let disks = enumerate_disks(&devices, &index);
    assert_eq!(disks.len(), 2);
    assert_eq!(disks[0].partitions.len(), 1);
    assert_eq!(disks[1].partitions.len(), 1);
    assert_eq!(disks[1].partitions[0].path, "/dev/sdb1".to_string());
}

#[test]
fn configured_record_is_merged_and_enriched() {
    let configured = Partition::new(
        "/dev/sda1".to_string(),
        Some("/dev/disk/by-uuid/U1".to_string()),
        vec!["/data".to_string()],
        Some("ext4".to_string()),
        0,
        None,
    );
    let devices = vec![
        probed("/dev/sda", 1000, None, None, None),
        probed("/dev/sda1", 300, Some("ext4"), Some("data"), Some("U1")),
    ];
    let disks = enumerate_disks(&devices, &vec![configured]);
    assert_eq!(disks.len(), 1);
    let p = &disks[0].partitions[0];
    // mount points from the configuration survive the merge
    assert_eq!(p.mount_points, vec!["/data".to_string()]);
    assert_eq!(p.uuid_path, Some("/dev/disk/by-uuid/U1".to_string()));
    assert_eq!(p.size, 300);
    assert_eq!(p.fs_type, Some("ext4".to_string()));
    assert_eq!(p.label, Some("data".to_string()));
}

#[test]
fn configured_metadata_kept_when_probe_reports_none() {
    let configured = Partition::new(
        "/dev/sda1".to_string(),
        Some("/dev/disk/by-uuid/U1".to_string()),
        vec!["/data".to_string()],
        Some("ext4".to_string()),
        0,
        None,
    );
    let devices = vec![
        probed("/dev/sda", 1000, None, None, None),
        probed("/dev/sda1", 300, None, None, Some("U1")),
    ];
    let disks = enumerate_disks(&devices, &vec![configured]);
    assert_eq!(disks[0].partitions[0].fs_type, Some("ext4".to_string()));
}

#[test]
fn partition_without_uuid_is_enumerable_but_identity_less() {
    let devices = vec![
        probed("/dev/sda", 1000, None, None, None),
        probed("/dev/sda1", 300, Some("swap"), None, None),
    ];
    let index: Vec<Partition> = Vec::new();
    let disks = enumerate_disks(&devices, &index);
    assert_eq!(disks[0].partitions.len(), 1);
    assert_eq!(disks[0].partitions[0].uuid_path, None);
    assert_eq!(disks[0].partitions[0].fs_type, Some("swap".to_string()));
}
