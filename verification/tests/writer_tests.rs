use nix_disk_manager::Disk;
use nix_disk_manager::Partition;
use nix_disk_manager::get_filesystem_options;
use nix_disk_manager::get_nix_disks_config;
use nix_disk_manager::is_critical_mount_point;

fn data_partition(path: &str, uuid: &str, mounts: Vec<&str>, fs: Option<&str>) -> Partition {
    Partition::new(
        path.to_string(),
        Some(uuid.to_string()),
        mounts.into_iter().map(|m| m.to_string()).collect(),
        fs.map(|f| f.to_string()),
        0,
        None,
    )
}

#[test]
fn test_filesystem_options() {
    let btrfs_opts = get_filesystem_options("btrfs", "/media/data");
    assert!(btrfs_opts.contains("compress=zstd"));
    assert!(btrfs_opts.contains("x-gvfs-show"));

    let root_opts = get_filesystem_options("ext4", "/");
    assert!(!root_opts.contains("x-gvfs-show"));
}

#[test]
fn filesystem_options_exact_values() {
    assert_eq!(
        get_filesystem_options("ext4", "/media/x"),
        "[ \"defaults\" \"nofail\" \"x-gvfs-show\" ]"
    );
    assert_eq!(get_filesystem_options("ext4", "/"), "[ \"defaults\" \"nofail\" ]");
    assert_eq!(get_filesystem_options("auto", "/boot"), "[ \"defaults\" \"nofail\" ]");
    assert_eq!(
        get_filesystem_options("btrfs", "/media/x"),
        "[ \"defaults\" \"nofail\" \"x-gvfs-show\" \"compress=zstd\" ]"
    );
    assert_eq!(
        get_filesystem_options("btrfs", "/"),
        "[ \"defaults\" \"nofail\" \"compress=zstd\" ]"
    );
    assert_eq!(
        get_filesystem_options("ntfs", "/media/win"),
        "[ \"defaults\" \"nofail\" \"x-gvfs-show\" \"uid=1000\" \"gid=100\" \"umask=022\" ]"
    );
    assert_eq!(
        get_filesystem_options("ntfs3", "/media/win"),
        "[ \"defaults\" \"nofail\" \"x-gvfs-show\" \"uid=1000\" \"gid=100\" \"umask=022\" ]"
    );
    assert_eq!(
        get_filesystem_options("ntfs", "/boot"),
        "[ \"defaults\" \"nofail\" \"uid=1000\" \"gid=100\" \"umask=022\" ]"
    );
}

#[test]
fn critical_mount_points_exact_set() {
    assert!(is_critical_mount_point("/"));
    assert!(is_critical_mount_point("/boot"));
    assert!(is_critical_mount_point("/boot/efi"));
    assert!(is_critical_mount_point("/nix"));
    assert!(is_critical_mount_point("/nix/store"));
    assert!(!is_critical_mount_point("/data"));
    assert!(!is_critical_mount_point("/boo"));
    assert!(!is_critical_mount_point(""));
}

const ROOT_BLOCK: &str = "fileSystems.\"/\" = {\n    device = \"/dev/disk/by-uuid/ROOT\";\n    fsType = \"ext4\";\n    options = [ \"defaults\" ];\n  };";

fn sample_config() -> String {
    format!("{{\n  {}\n}}", ROOT_BLOCK)
}

fn sample_disks() -> Vec<Disk> {
    let part = data_partition(
        "/dev/sda1",
        "/dev/disk/by-uuid/DATA",
        vec!["/data"],
        Some("ext4"),
    );
    vec![Disk::new("/dev/sda".to_string(), vec![part], 1000)]
}

#[test]
fn regenerate_exact_output() {
    let out = get_nix_disks_config(&sample_config(), &sample_disks()).unwrap();
    let expected = "{\n  fileSystems.\"/\" = {\n    device = \"/dev/disk/by-uuid/ROOT\";\n    fsType = \"ext4\";\n    options = [ \"defaults\" ];\n  };\n  fileSystems.\"/data\" = {\n    device = \"/dev/disk/by-uuid/DATA\";\n    fsType = \"ext4\";\n    options = [ \"defaults\" \"nofail\" \"x-gvfs-show\" ];\n  };\n\n}";
    assert_eq!(out, expected);
}

#[test]
fn regenerate_preserves_critical_block_verbatim() {
    let out = get_nix_disks_config(&sample_config(), &sample_disks()).unwrap();
    assert!(out.contains(ROOT_BLOCK));

    let no_disks: Vec<Disk> = Vec::new();
    let out_empty = get_nix_disks_config(&sample_config(), &no_disks).unwrap();
    assert!(out_empty.contains(ROOT_BLOCK));
}

#[test]
fn regenerate_is_idempotent() {
    let disks = sample_disks();
    let once = get_nix_disks_config(&sample_config(), &disks).unwrap();
    let twice = get_nix_disks_config(&once, &disks).unwrap();
    assert_eq!(once, twice);
}

#[test]
fn regenerate_drops_noncritical_declarations_from_old_text() {
    let config = "{\n  fileSystems.\"/old\" = {\n    device = \"/dev/disk/by-uuid/OLD\";\n    fsType = \"ext4\";\n    options = [ \"defaults\" ];\n  };\n}";
    let no_disks: Vec<Disk> = Vec::new();
    let out = get_nix_disks_config(config, &no_disks).unwrap();
    assert!(!out.contains("/old"));
    assert_eq!(out, "{\n\n}");
}

#[test]
fn regenerate_skips_critical_mount_points_of_disks() {
    let part = data_partition(
        "/dev/sda1",
        "/dev/disk/by-uuid/NEWROOT",
        vec!["/", "/data"],
        Some("ext4"),
    );
    let disks = vec![Disk::new("/dev/sda".to_string(), vec![part], 0)];
    let out = get_nix_disks_config("{\n}", &disks).unwrap();
    // the critical mount point is never regenerated from the disk tree
    assert!(!out.contains("fileSystems.\"/\""));
    assert!(out.contains("fileSystems.\"/data\""));
}

#[test]
fn regenerate_skips_identity_less_partitions() {
    let part = Partition::new(
        "/dev/sda1".to_string(),
        None,
        vec!["/data".to_string()],
        Some("ext4".to_string()),
        0,
        None,
    );
    let disks = vec![Disk::new("/dev/sda".to_string(), vec![part], 0)];
    let out = get_nix_disks_config("{\n}", &disks).unwrap();
    assert!(!out.contains("/data"));
}

#[test]
fn regenerate_uses_auto_for_unknown_filesystem() {
    let part = data_partition("/dev/sda1", "/dev/disk/by-uuid/X", vec!["/data"], None);
    let disks = vec![Disk::new("/dev/sda".to_string(), vec![part], 0)];
    let out = get_nix_disks_config("{\n}", &disks).unwrap();
    assert!(out.contains("fsType = \"auto\""));
}

#[test]
fn round_trip_re_extracts_emitted_mount_points() {
    let disks = sample_disks();
    let out = get_nix_disks_config(&sample_config(), &disks).unwrap();
    let no_resolution: Vec<(String, String)> = Vec::new();
    let parts = nix_disk_manager::parse_nix_filesystems(&out, &no_resolution).unwrap();
    assert_eq!(parts.len(), 2);
    assert_eq!(parts[0].mount_points, vec!["/".to_string()]);
    assert_eq!(parts[0].uuid_path, Some("/dev/disk/by-uuid/ROOT".to_string()));
    assert_eq!(parts[1].mount_points, vec!["/data".to_string()]);
    assert_eq!(parts[1].uuid_path, Some("/dev/disk/by-uuid/DATA".to_string()));
    assert_eq!(parts[1].fs_type, Some("ext4".to_string()));
}

#[test]
fn regenerate_fails_on_unterminated_block() {
    let config = "{\n  fileSystems.\"/\" = {\n    device = \"/dev/sda1\";\n";
    let no_disks: Vec<Disk> = Vec::new();
    let err = get_nix_disks_config(config, &no_disks).unwrap_err();
    assert_eq!(err.offset, 4);
}
