use refind_conf::fs::{copy_atomic, temp_path_of, write_atomic, FileTracker, FsStep};
use std::collections::{BTreeMap, BTreeSet};
use std::path::Path;

fn strings(items: &[&str]) -> Vec<String> {
    items.iter().map(|s| s.to_string()).collect()
}

fn sorted(mut v: Vec<String>) -> Vec<String> {
    v.sort();
    v
}

#[test]
fn new_tracker_holds_every_file_as_unused() {
    let tracker = FileTracker::new(&strings(&["/boot/a", "/boot/b", "/boot/c"]));
    assert_eq!(sorted(tracker.cleanup()), strings(&["/boot/a", "/boot/b", "/boot/c"]));
}

#[test]
fn new_tracker_of_a_missing_directory_is_empty() {
    let tracker = FileTracker::new(&Vec::new());
    assert_eq!(tracker.cleanup(), Vec::<String>::new());
}

#[test]
fn new_tracker_holds_a_path_once() {
    let tracker = FileTracker::new(&strings(&["/boot/a", "/boot/b", "/boot/a"]));
    assert_eq!(sorted(tracker.cleanup()), strings(&["/boot/a", "/boot/b"]));
}

#[test]
fn cleanup_names_exactly_the_unmarked_files() {
    let found = strings(&["/boot/k1", "/boot/k2", "/boot/k3", "/boot/k4"]);
    let mut tracker = FileTracker::new(&found);
    tracker.mark_used("/boot/k2");
    tracker.mark_used("/boot/k4");
    assert_eq!(sorted(tracker.cleanup()), strings(&["/boot/k1", "/boot/k3"]));
}

#[test]
fn mark_used_is_idempotent() {
    let mut tracker = FileTracker::new(&strings(&["/boot/k1", "/boot/k2"]));
    tracker.mark_used("/boot/k1");
    let once = sorted(tracker.cleanup());
    tracker.mark_used("/boot/k1");
    assert_eq!(sorted(tracker.cleanup()), once);
    assert_eq!(once, strings(&["/boot/k2"]));
}

#[test]
fn mark_used_adds_a_file_that_was_not_found() {
    let mut tracker = FileTracker::new(&strings(&["/boot/k1"]));
    tracker.mark_used("/boot/new");
    assert_eq!(tracker.cleanup(), strings(&["/boot/k1"]));
    tracker.mark_used("/boot/k1");
    assert_eq!(tracker.cleanup(), Vec::<String>::new());
}

#[test]
fn a_second_sweep_deletes_nothing() {
    let found = strings(&["/boot/k1", "/boot/k2", "/boot/k3"]);
    let mut disk: BTreeSet<String> = found.iter().cloned().collect();
    let mut tracker = FileTracker::new(&found);
    tracker.mark_used("/boot/k2");
    let mut deleted = Vec::new();
    for path in tracker.cleanup() {
        if disk.remove(&path) {
            deleted.push(path);
        }
    }
    assert_eq!(sorted(deleted), strings(&["/boot/k1", "/boot/k3"]));
    assert_eq!(disk.iter().cloned().collect::<Vec<_>>(), strings(&["/boot/k2"]));
    let mut deleted_again = Vec::new();
    for path in tracker.cleanup() {
        if disk.remove(&path) {
            deleted_again.push(path);
        }
    }
    assert_eq!(deleted_again, Vec::<String>::new());
    assert_eq!(disk.iter().cloned().collect::<Vec<_>>(), strings(&["/boot/k2"]));
}

#[test]
fn temp_path_of_lies_beside_the_destination() {
    assert_eq!(temp_path_of("/boot/efi/refind/refind.conf"), "/boot/efi/refind/refind.conf.tmp");
    assert_eq!(temp_path_of("/boot/kernels/abc-bzImage"), "/boot/kernels/abc-bzImage.tmp");
    assert_eq!(temp_path_of("/boot/kernels/x.tmp"), "/boot/kernels/x.tmp.tmp");
    assert_eq!(temp_path_of("/boot/.hidden"), "/boot/.hidden.tmp");
    assert_eq!(temp_path_of("/boot/kernels/"), "/boot/kernels.tmp");
    assert_eq!(temp_path_of("relative"), "relative.tmp");
}

#[test]
fn temp_path_of_is_never_the_destination() {
    for p in [
        "/boot/efi/refind/refind.conf",
        "/boot/kernels/x.tmp",
        "/boot/kernels/x.tmp.tmp",
        ".tmp",
        "/.tmp",
        "x.tmp/",
        "x.tmp////",
        "/",
        "////",
        "",
        "/a/..",
        "/a/b.c/",
    ] {
        let temp = temp_path_of(p);
        assert_ne!(temp, p, "{:?}", p);
        assert!(temp.ends_with(".tmp"), "{:?}", p);
        assert_eq!(temp, format!("{}.tmp", p.trim_end_matches('/')), "{:?}", p);
        if let Some(parent) = Path::new(p).parent() {
            assert_eq!(Path::new(&temp).parent(), Some(parent), "{:?}", p);
        }
    }
}

#[test]
fn a_copy_to_a_destination_that_ends_in_tmp_is_prepared_elsewhere() {
    let source = "/nix/store/abc/x.tmp";
    let dest = "/b/kernels/x.tmp";
    let plan = copy_atomic(source, dest);
    assert_eq!(
        plan,
        vec![
            FsStep::CreateDirAll { dir: "/b/kernels".to_string() },
            FsStep::Copy { from: source.to_string(), to: "/b/kernels/x.tmp.tmp".to_string() },
            FsStep::Rename { from: "/b/kernels/x.tmp.tmp".to_string(), to: dest.to_string() },
        ]
    );
    for fail_at in 0..plan.len() {
        let mut disk = Disk::new();
        disk.insert(source.to_string(), Some(b"new".to_vec()));
        disk.insert(dest.to_string(), Some(b"old".to_vec()));
        assert!(!run(&plan, b"", &mut disk, Some(fail_at)));
        assert_eq!(disk.get(dest), Some(&Some(b"old".to_vec())), "step {}", fail_at);
    }
}

#[test]
fn copy_atomic_copies_beside_the_destination_then_renames() {
    assert_eq!(
        copy_atomic("/nix/store/abc-linux/bzImage", "/boot/efi/refind/kernels/abc-linux-bzImage"),
        vec![
            FsStep::CreateDirAll { dir: "/boot/efi/refind/kernels".to_string() },
            FsStep::Copy {
                from: "/nix/store/abc-linux/bzImage".to_string(),
                to: "/boot/efi/refind/kernels/abc-linux-bzImage.tmp".to_string(),
            },
            FsStep::Rename {
                from: "/boot/efi/refind/kernels/abc-linux-bzImage.tmp".to_string(),
                to: "/boot/efi/refind/kernels/abc-linux-bzImage".to_string(),
            },
        ]
    );
}

#[test]
fn write_atomic_writes_beside_the_destination_then_renames() {
    assert_eq!(
        write_atomic("/boot/efi/refind/refind.conf"),
        vec![
            FsStep::CreateDirAll { dir: "/boot/efi/refind".to_string() },
            FsStep::WriteSynced { to: "/boot/efi/refind/refind.conf.tmp".to_string() },
            FsStep::Rename {
                from: "/boot/efi/refind/refind.conf.tmp".to_string(),
                to: "/boot/efi/refind/refind.conf".to_string(),
            },
        ]
    );
}

#[test]
fn a_plan_for_the_root_has_no_directory_to_make() {
    assert_eq!(
        write_atomic("/"),
        vec![
            FsStep::WriteSynced { to: ".tmp".to_string() },
            FsStep::Rename { from: ".tmp".to_string(), to: "/".to_string() },
        ]
    );
}

/// Files by path; `None` stands for a file that a failed write left half done.
type Disk = BTreeMap<String, Option<Vec<u8>>>;

/// Carries out `plan` on `disk`, failing at step `fail_at` if there is one.
fn run(plan: &[FsStep], data: &[u8], disk: &mut Disk, fail_at: Option<usize>) -> bool {
    for (i, step) in plan.iter().enumerate() {
        let fails = fail_at == Some(i);
        match step {
            FsStep::CreateDirAll { .. } => {
                if fails {
                    return false;
                }
            }
            FsStep::Copy { from, to } => {
                if fails {
                    disk.insert(to.clone(), None);
                    return false;
                }
                let content = disk.get(from).cloned().unwrap();
                disk.insert(to.clone(), content);
            }
            FsStep::WriteSynced { to } => {
                if fails {
                    disk.insert(to.clone(), None);
                    return false;
                }
                disk.insert(to.clone(), Some(data.to_vec()));
            }
            FsStep::Rename { from, to } => {
                if fails {
                    return false;
                }
                let content = disk.remove(from).unwrap();
                disk.insert(to.clone(), content);
            }
        }
    }
    true
}

#[test]
fn a_copy_cut_short_leaves_the_destination_as_it_was() {
    let source = "/nix/store/abc-linux/bzImage";
    let dest = "/boot/kernels/abc-linux-bzImage";
    let plan = copy_atomic(source, dest);
    for old in [None, Some(b"old".to_vec())] {
        for fail_at in 0..plan.len() {
            let mut disk = Disk::new();
            disk.insert(source.to_string(), Some(b"kernel".to_vec()));
            if let Some(content) = &old {
                disk.insert(dest.to_string(), Some(content.clone()));
            }
            assert!(!run(&plan, b"", &mut disk, Some(fail_at)));
            assert_eq!(disk.get(dest).cloned(), old.clone().map(Some), "step {}", fail_at);
        }
        let mut disk = Disk::new();
        disk.insert(source.to_string(), Some(b"kernel".to_vec()));
        if let Some(content) = &old {
            disk.insert(dest.to_string(), Some(content.clone()));
        }
        assert!(run(&plan, b"", &mut disk, None));
        assert_eq!(disk.get(dest), Some(&Some(b"kernel".to_vec())));
        assert!(!disk.contains_key(&temp_path_of(dest)));
    }
}

#[test]
fn a_write_cut_short_leaves_the_destination_as_it_was() {
    let dest = "/boot/efi/refind/refind.conf";
    let plan = write_atomic(dest);
    for fail_at in 0..plan.len() {
        let mut disk = Disk::new();
        disk.insert(dest.to_string(), Some(b"old".to_vec()));
        assert!(!run(&plan, b"new", &mut disk, Some(fail_at)));
        assert_eq!(disk.get(dest), Some(&Some(b"old".to_vec())), "step {}", fail_at);
    }
    let mut disk = Disk::new();
    assert!(run(&plan, b"new", &mut disk, None));
    assert_eq!(disk.get(dest), Some(&Some(b"new".to_vec())));
    assert_eq!(disk.len(), 1);
}
