use refind_conf::path::{file_name_of, join_path, parent_of};
use std::path::Path;

#[test]
fn join_path_follows_the_platform() {
    for base in ["", "/", "/a", "/a/", "a", "a/b", "/nix/var/nix/profiles"] {
        for rel in ["", "b", "b/c", "/b", "/", "system-5-link", "b/"] {
            let expected = Path::new(base).join(rel);
            assert_eq!(join_path(base, rel), expected.to_str().unwrap(), "{:?} {:?}", base, rel);
        }
    }
    assert_eq!(join_path("/a", "b"), "/a/b");
    assert_eq!(join_path("/a/", "b"), "/a/b");
    assert_eq!(join_path("/a", "/b"), "/b");
    assert_eq!(join_path("", "b"), "b");
}

#[test]
fn file_name_of_resolved_paths_follows_the_platform() {
    for p in ["", "/", "//", "/a", "/a/b", "/a/b/", "a", "a/b//", "/nix/store/abc-linux/bzImage", "..", "/a/.."] {
        let expected = Path::new(p).file_name().map(|n| n.to_str().unwrap().to_string());
        assert_eq!(file_name_of(p), expected, "{:?}", p);
    }
    assert_eq!(file_name_of("/dev/sda1"), Some("sda1".to_string()));
    assert_eq!(file_name_of("."), None);
    assert_eq!(file_name_of("/"), None);
}

#[test]
fn parent_of_resolved_paths_follows_the_platform() {
    for p in ["", "/", "/a", "/a/b", "/a/b/", "a", "a/b", "a//b", "/nix/store/abc-linux/bzImage", ".."] {
        let expected = Path::new(p).parent().map(|n| n.to_str().unwrap().to_string());
        assert_eq!(parent_of(p), expected, "{:?}", p);
    }
    assert_eq!(parent_of("/boot/efi"), Some("/boot".to_string()));
    assert_eq!(parent_of("/boot"), Some("/".to_string()));
    assert_eq!(parent_of("boot"), Some("".to_string()));
    assert_eq!(parent_of("/"), None);
}
