use nix_disk_manager::parse_blkid_output;
use nix_disk_manager::parse_proc_partitions;
use nix_disk_manager::parse_size_output;
use nix_disk_manager::should_skip_device;

#[test]
fn listing_takes_fourth_field_after_headers() {
    let listing = "major minor  #blocks  name\n\n   8        0  488386584 sda\n   8        1     524288 sda1\n   8        2  487860224 sda2\n";
    let paths = parse_proc_partitions(listing);
    assert_eq!(
        paths,
        vec!["/dev/sda".to_string(), "/dev/sda1".to_string(), "/dev/sda2".to_string()]
    );
}

#[test]
fn listing_skips_virtual_and_optical_devices() {
    let listing = "major minor  #blocks  name\n\n 253        0    8388608 zram0\n  11        0    1048575 sr0\n   8        0  488386584 sda\n";
    let paths = parse_proc_partitions(listing);
    assert_eq!(paths, vec!["/dev/sda".to_string()]);
}

#[test]
fn listing_skips_short_lines_not_fatally() {
    let listing = "h1\nh2\nbad line\n   8        0  488386584 sda\n";
    let paths = parse_proc_partitions(listing);
    assert_eq!(paths, vec!["/dev/sda".to_string()]);
}

#[test]
fn listing_with_only_headers_is_empty() {
    assert_eq!(parse_proc_partitions("h1\nh2\n"), Vec::<String>::new());
    assert_eq!(parse_proc_partitions(""), Vec::<String>::new());
}

#[test]
fn device_name_exclusion_rule() {
    assert!(should_skip_device("zram0"));
    assert!(should_skip_device("sr0"));
    assert!(should_skip_device("sr"));
    assert!(!should_skip_device("sda"));
    assert!(!should_skip_device("nvme0n1"));
}

#[test]
fn blkid_output_yields_all_three_fields() {
    let out = "/dev/sda1: LABEL=\"data\" UUID=\"abcd-ef01\" BLOCK_SIZE=\"4096\" TYPE=\"ext4\" PARTUUID=\"0002\"";
    let (fs_type, label, uuid) = parse_blkid_output(out);
    assert_eq!(fs_type, Some("ext4".to_string()));
    assert_eq!(label, Some("data".to_string()));
    assert_eq!(uuid, Some("abcd-ef01".to_string()));
}

#[test]
fn blkid_fields_are_independently_optional() {
    let out = "/dev/sda1: TYPE=\"swap\"";
    let (fs_type, label, uuid) = parse_blkid_output(out);
    assert_eq!(fs_type, Some("swap".to_string()));
    assert_eq!(label, None);
    assert_eq!(uuid, None);

    let (fs_type, label, uuid) = parse_blkid_output("");
    assert_eq!(fs_type, None);
    assert_eq!(label, None);
    assert_eq!(uuid, None);
}

#[test]
fn blkid_empty_value_is_passed_over() {
    let out = "TYPE=\"\" junk TYPE=\"ext4\"";
    let (fs_type, _, _) = parse_blkid_output(out);
    assert_eq!(fs_type, Some("ext4".to_string()));
}

#[test]
fn size_output_parses_trimmed_decimal() {
    assert_eq!(parse_size_output("  500107862016\n"), 500107862016);
    assert_eq!(parse_size_output("0"), 0);
    assert_eq!(parse_size_output("+42"), 42);
    assert_eq!(parse_size_output("18446744073709551615"), u64::MAX);
}

#[test]
fn size_output_degrades_to_zero_on_parse_failure() {
    assert_eq!(parse_size_output(""), 0);
    assert_eq!(parse_size_output("   \n"), 0);
    assert_eq!(parse_size_output("12a4"), 0);
    assert_eq!(parse_size_output("-5"), 0);
    assert_eq!(parse_size_output("18446744073709551616"), 0);
    assert_eq!(parse_size_output("9999999999999999999999999"), 0);
}
