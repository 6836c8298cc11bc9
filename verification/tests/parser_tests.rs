use nix_disk_manager::ParseError;
use nix_disk_manager::extract_declarations;
use nix_disk_manager::extract_mount_point;
use nix_disk_manager::locate_blocks;
use nix_disk_manager::parse_nix_filesystems;

const DATA_BLOCK: &str = "fileSystems.\"/data\" = { device = \"/dev/disk/by-uuid/ABCD\"; fsType = \"ext4\"; options = [ \"defaults\" ]; };";

#[test]
fn parse_extracts_single_declaration() {
    let config = format!("{{\n  {}\n}}", DATA_BLOCK);
    let no_resolution: Vec<(String, String)> = Vec::new();
    let parts = parse_nix_filesystems(&config, &no_resolution).unwrap();
    assert_eq!(parts.len(), 1);
    assert_eq!(parts[0].mount_points, vec!["/data".to_string()]);
    assert_eq!(parts[0].uuid_path, Some("/dev/disk/by-uuid/ABCD".to_string()));
    assert_eq!(parts[0].fs_type, Some("ext4".to_string()));
    assert_eq!(parts[0].path, "/dev/disk/by-uuid/ABCD".to_string());
    assert_eq!(parts[0].size, 0);
    assert_eq!(parts[0].label, None);
}

#[test]
fn parse_merges_declarations_with_one_device() {
    let config = "{\n  fileSystems.\"/a\" = { device = \"/dev/disk/by-uuid/X\"; };\n  fileSystems.\"/b\" = { device = \"/dev/disk/by-uuid/X\"; };\n  fileSystems.\"/a\" = { device = \"/dev/disk/by-uuid/X\"; };\n}";
    let no_resolution: Vec<(String, String)> = Vec::new();
    let parts = parse_nix_filesystems(config, &no_resolution).unwrap();
    assert_eq!(parts.len(), 1);
    // mount points accumulate, deduplicated, in first-seen order
    assert_eq!(parts[0].mount_points, vec!["/a".to_string(), "/b".to_string()]);
}

#[test]
fn parse_resolves_device_references() {
    let config = "{ fileSystems.\"/a\" = { device = \"/dev/disk/by-uuid/X\"; }; }";
    let resolved = vec![("/dev/disk/by-uuid/X".to_string(), "/dev/sda1".to_string())];
    let parts = parse_nix_filesystems(config, &resolved).unwrap();
    assert_eq!(parts.len(), 1);
    assert_eq!(parts[0].path, "/dev/sda1".to_string());
    // the stable identity stays the declared reference
    assert_eq!(parts[0].uuid_path, Some("/dev/disk/by-uuid/X".to_string()));
}

#[test]
fn parse_fails_without_device_field() {
    let config = "{ fileSystems.\"/a\" = { fsType = \"ext4\"; }; }";
    let err = extract_declarations(config).unwrap_err();
    let ParseError::MalformedDeclaration { offset } = err;
    assert_eq!(offset, 2);
}

#[test]
fn parse_fails_on_unterminated_block() {
    let config = "{ fileSystems.\"/a\" = { device = \"/dev/sda1\";";
    let err = extract_declarations(config).unwrap_err();
    let ParseError::MalformedDeclaration { offset } = err;
    assert_eq!(offset, 2);
}

#[test]
fn declarations_carry_offsets_and_raw_text() {
    let config = format!("{{\n  {}\n}}", DATA_BLOCK);
    let decls = extract_declarations(&config).unwrap();
    assert_eq!(decls.len(), 1);
    assert_eq!(decls[0].offset, 4);
    assert_eq!(decls[0].text, DATA_BLOCK.to_string());
    assert_eq!(decls[0].mount_point, "/data".to_string());
    assert_eq!(decls[0].device, "/dev/disk/by-uuid/ABCD".to_string());
}

#[test]
fn locate_blocks_reports_spans_and_unterminated_marker() {
    let config = format!("{{\n  {}\n}}", DATA_BLOCK);
    let scan = locate_blocks(&config);
    assert_eq!(scan.spans, vec![(4, 4 + DATA_BLOCK.chars().count())]);
    assert_eq!(scan.unterminated, None);

    let broken = "xx fileSystems.\"/a\" = { device = \"/dev/sda1\";";
    let scan = locate_blocks(broken);
    assert_eq!(scan.spans, Vec::<(usize, usize)>::new());
    assert_eq!(scan.unterminated, Some(3));
}

#[test]
fn mount_point_extraction_from_block_text() {
    assert_eq!(extract_mount_point(DATA_BLOCK), Some("/data".to_string()));
    assert_eq!(extract_mount_point("no declaration here"), None);
    assert_eq!(extract_mount_point("fileSystems.\"unclosed"), None);
}
