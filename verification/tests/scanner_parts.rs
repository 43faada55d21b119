use mscrw::names::{is_image_ext, is_text_ext, shell_rc_name};
use mscrw::scanner::{
    decimal_string, filetime_to_unix_nanos, format_permissions, gather_results,
    get_unix_owner, get_windows_attrs, nanos_u64, wants_image_meta, wants_text_meta,
    size_and_kind, worker_count, FileMetadata, ScannedFile, WINDOWS_EPOCH_OFFSET,
};
use std::path::PathBuf;

fn file(ext: &str) -> ScannedFile {
    ScannedFile {
        path: PathBuf::from(format!("x{}", ext)),
        name: format!("x{}", ext),
        extension: ext.to_string(),
        is_dir: false,
    }
}

#[test]
fn text_extensions() {
    assert!(is_text_ext(".rs"));
    assert!(is_text_ext(".dockerignore"));
    assert!(is_text_ext(".tsx"));
    assert!(!is_text_ext(".RS"));
    assert!(!is_text_ext(".png"));
    assert!(!is_text_ext(""));
}

#[test]
fn image_extensions() {
    assert!(is_image_ext(".webp"));
    assert!(!is_image_ext(".JPG"));
    assert!(wants_image_meta(&file(".JPG"), false));
    assert!(wants_image_meta(&file(".Jpeg"), false));
    assert!(!wants_image_meta(&file(".jpg"), true));
    assert!(!wants_image_meta(&file(".tiff"), false));
}

#[test]
fn text_extension_is_compared_as_written() {
    assert!(wants_text_meta(&file(".md"), false));
    assert!(!wants_text_meta(&file(".MD"), false));
    assert!(!wants_text_meta(&file(".md"), true));
}

#[test]
fn windows_attribute_flags() {
    assert_eq!(get_windows_attrs(Some(0x2)), (true, false, false));
    assert_eq!(get_windows_attrs(Some(0x4)), (false, true, false));
    assert_eq!(get_windows_attrs(Some(0x21)), (false, false, true));
    assert_eq!(get_windows_attrs(Some(0x7)), (true, true, true));
    assert_eq!(get_windows_attrs(None), (false, false, false));
}

#[test]
fn owner_in_decimal() {
    assert_eq!(get_unix_owner(Some((1000, 100))), ("1000".to_string(), "100".to_string()));
    assert_eq!(get_unix_owner(None), ("0".to_string(), "0".to_string()));
    assert_eq!(decimal_string(0), "0");
    assert_eq!(decimal_string(4294967295), "4294967295");
    assert_eq!(decimal_string(90), "90");
}

#[test]
fn permission_strings() {
    assert_eq!(format_permissions(Some(0o100644), false), ("-rw-r--r--".to_string(), 0o644));
    assert_eq!(format_permissions(Some(0o40755), true), ("drwxr-xr-x".to_string(), 0o755));
    assert_eq!(format_permissions(Some(0o7001), false), ("---------x".to_string(), 0o1));
    assert_eq!(format_permissions(None, true), (String::new(), 0));
}

#[test]
fn windows_file_times() {
    assert_eq!(filetime_to_unix_nanos(0), 0);
    assert_eq!(filetime_to_unix_nanos(WINDOWS_EPOCH_OFFSET), 0);
    assert_eq!(filetime_to_unix_nanos(WINDOWS_EPOCH_OFFSET + 10_000_000), 1_000_000_000);
    assert_eq!(filetime_to_unix_nanos(u64::MAX), u64::MAX);
    assert_eq!(WINDOWS_EPOCH_OFFSET, 11_644_473_600u64 * 10_000_000);
}

#[test]
fn nanos_are_cut_to_64_bits() {
    assert_eq!(nanos_u64(5), 5);
    assert_eq!(nanos_u64((1u128 << 64) + 7), 7);
}

#[test]
fn workers() {
    assert_eq!(worker_count(8, 3), 3);
    assert_eq!(worker_count(2, 10), 2);
    assert_eq!(worker_count(0, 10), 1);
    assert_eq!(worker_count(4, 0), 1);
}

fn report(name: &str) -> FileMetadata {
    FileMetadata {
        path: name.to_string(),
        name: name.to_string(),
        extension: String::new(),
        size: 1,
        permissions: String::new(),
        permissions_octal: 0,
        owner: "0".to_string(),
        group: "0".to_string(),
        created: 0,
        modified: 0,
        accessed: 0,
        is_directory: false,
        is_symlink: false,
        is_hidden: false,
        is_system: false,
        is_readonly: false,
        image: None,
        text: None,
    }
}

#[test]
fn results_keep_file_order() {
    let rs = vec![Some(report("a")), None, Some(report("b")), Some(report("c")), None];
    let out = gather_results(rs);
    let names: Vec<&str> = out.iter().map(|m| m.name.as_str()).collect();
    assert_eq!(names, vec!["a", "b", "c"]);
    assert!(gather_results(Vec::new()).is_empty());
}

#[test]
fn no_extension_is_read_both_ways() {
    for ext in [".txt", ".md", ".rs", ".JPG", ".png", ".Gif", ".log", ".tex", ".webp", ".bmp"] {
        let f = file(ext);
        assert!(!(wants_image_meta(&f, false) && wants_text_meta(&f, false)), "{}", ext);
    }
}

#[test]
fn size_when_metadata_is_missing() {
    assert_eq!(size_and_kind(Some((42, false)), true), (42, false));
    assert_eq!(size_and_kind(None, true), (0, true));
    assert_eq!(size_and_kind(None, false), (0, false));
}

#[test]
fn shell_start_up_file() {
    assert_eq!(shell_rc_name("/usr/bin/zsh"), ".zshrc");
    assert_eq!(shell_rc_name("/bin/bash"), ".bashrc");
    assert_eq!(shell_rc_name("zs"), ".bashrc");
    assert_eq!(shell_rc_name(""), ".bashrc");
    assert_eq!(shell_rc_name("zsh"), ".zshrc");
}
