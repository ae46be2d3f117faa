use clam_onaccess::config::AbsoluteDirPath;
use clam_onaccess::mount::{closest_mount, is_pseudo_fs, mark_targets, mount_points, Mount};

fn dirs(paths: &[&str]) -> Vec<AbsoluteDirPath> {
    paths
        .iter()
        .map(|p| AbsoluteDirPath::from_bytes(p.as_bytes().to_vec()).unwrap())
        .collect()
}

fn points(paths: &[&str]) -> Vec<Vec<u8>> {
    paths.iter().map(|p| p.as_bytes().to_vec()).collect()
}

fn mount(fs_type: &str, point: &str) -> Mount {
    Mount { fs_type: fs_type.to_string(), mount_point: point.as_bytes().to_vec() }
}

#[test]
fn pseudo_file_systems() {
    for t in ["proc", "sysfs", "devtmpfs", "cgroup", "cgroup2", "pstore"] {
        assert!(is_pseudo_fs(t));
    }
    for t in ["ext4", "tmpfs", "procfs", "", "cgroup3", "PROC"] {
        assert!(!is_pseudo_fs(t));
    }
}

#[test]
fn mounts_without_files_are_left_out() {
    let mounts = vec![
        mount("ext4", "/"),
        mount("proc", "/proc"),
        mount("tmpfs", "/tmp"),
        mount("cgroup2", "/sys/fs/cgroup"),
        mount("xfs", "/home"),
    ];
    assert_eq!(mount_points(&mounts), points(&["/", "/tmp", "/home"]));
    assert_eq!(mount_points(&vec![]), points(&[]));
}

#[test]
fn deepest_mount_is_the_closest() {
    let list = points(&["/", "/home", "/home/user", "/homework", "/srv"]);
    assert_eq!(closest_mount(&list, b"/home/user/docs/"), Some(2));
    assert_eq!(closest_mount(&list, b"/home/other/"), Some(1));
    assert_eq!(closest_mount(&list, b"/homeworks/"), Some(0));
    assert_eq!(closest_mount(&list, b"/home/"), Some(1));
    assert_eq!(closest_mount(&points(&["/srv"]), b"/home/"), None);
    assert_eq!(closest_mount(&points(&[]), b"/"), None);
}

#[test]
fn last_of_equally_deep_mounts_is_the_closest() {
    let list = points(&["/", "/home", "/tmp", "/home"]);
    assert_eq!(closest_mount(&list, b"/home/a/"), Some(3));
}

#[test]
fn holding_mount_and_inner_mounts_are_watched() {
    let list = points(&["/", "/home", "/home/a", "/home/b", "/srv"]);
    assert_eq!(mark_targets(&list, &dirs(&["/home"]), &dirs(&[])), vec![1, 2, 3]);
    assert_eq!(mark_targets(&list, &dirs(&["/home/a/x"]), &dirs(&[])), vec![2]);
    assert_eq!(mark_targets(&list, &dirs(&["/"]), &dirs(&[])), vec![0, 1, 2, 3, 4]);
    assert_eq!(mark_targets(&list, &dirs(&[]), &dirs(&[])), Vec::<usize>::new());
}

#[test]
fn excluded_mounts_are_not_watched() {
    let list = points(&["/", "/home", "/home/a", "/home/a/deep", "/home/ab", "/srv"]);
    assert_eq!(
        mark_targets(&list, &dirs(&["/home"]), &dirs(&["/home/a"])),
        vec![1, 4]
    );
}

#[test]
fn excluded_mount_is_watched_for_a_directory_on_it() {
    let list = points(&["/", "/home", "/home/a"]);
    assert_eq!(
        mark_targets(&list, &dirs(&["/home/a/x"]), &dirs(&["/home"])),
        vec![2]
    );
}

#[test]
fn no_mount_point_is_watched_twice() {
    let list = points(&["/", "/home", "/home/", "/home/a"]);
    assert_eq!(
        mark_targets(&list, &dirs(&["/home", "/home/a", "/home/b"]), &dirs(&[])),
        vec![2, 3]
    );
    assert_eq!(mark_targets(&list, &dirs(&["/"]), &dirs(&[])), vec![0, 1, 3]);
}

#[test]
fn file_of_a_watched_directory_is_covered() {
    let list = points(&["/", "/home", "/home/a"]);
    let watched = mark_targets(&list, &dirs(&["/home"]), &dirs(&[]));
    let holder = closest_mount(&list, b"/home/a/file").unwrap();
    assert!(watched.contains(&holder));
}
