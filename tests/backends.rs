use droplet_rs::backends::{create_backend_constructor, is_supported_extension, Backend};
use droplet_rs::types::{PathVersionBackend, VersionBackend, ZipVersionBackend};

#[test]
fn missing_path_has_no_backend() {
    let p = "/nowhere".to_string();
    assert!(create_backend_constructor(&p, false, true, true, None).is_none());
}

#[test]
fn directory_gets_path_backend() {
    let p = "/games/x".to_string();
    match create_backend_constructor(&p, true, true, false, None) {
        Some(Backend::Path(b)) => {
            assert_eq!(b.base_dir, "/games/x");
            assert!(!b.require_whole_files());
        }
        _ => panic!("expected a directory backend"),
    }
}

#[test]
fn archive_gets_zip_backend_when_tool_installed() {
    let p = "/games/x.zip".to_string();
    let ext = "zip".to_string();
    match create_backend_constructor(&p, true, false, true, Some(&ext)) {
        Some(Backend::Zip(b)) => {
            assert_eq!(b.path, "/games/x.zip");
            assert!(b.require_whole_files());
        }
        _ => panic!("expected an archive backend"),
    }
    assert!(create_backend_constructor(&p, true, false, false, Some(&ext)).is_none());
}

#[test]
fn unknown_extension_has_no_backend() {
    let p = "/games/x.txt".to_string();
    let ext = "txt".to_string();
    assert!(create_backend_constructor(&p, true, false, true, Some(&ext)).is_none());
    assert!(create_backend_constructor(&p, true, false, true, None).is_none());
}

#[test]
fn extension_list() {
    for e in ["7z", "zip", "tar", "gz", "iso", "img", "taz", "qcow2c"] {
        assert!(is_supported_extension(&e.to_string()), "{}", e);
    }
    for e in ["", "ZIP", "txt", "7", "zipp"] {
        assert!(!is_supported_extension(&e.to_string()), "{}", e);
    }
}

#[test]
fn zip_backend_new_keeps_path() {
    let z = ZipVersionBackend::new("a.7z".to_string());
    assert_eq!(z.path, "a.7z");
    let p = PathVersionBackend { base_dir: "d".to_string() };
    assert!(!p.require_whole_files());
}
