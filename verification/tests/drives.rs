use std::path::Path;
use termide_drives::drives::{mounted_drives, sorted_unique_drives, Drive};
use termide_drives::mounts::{
    is_storage_filesystem, mounts_to_drives, octal_byte, parse_mounts, unescape_mount_field,
};

/// The probe the application uses: is the mount point a live directory?
fn is_dir(path: &str) -> bool {
    Path::new(path).is_dir()
}

/// A mount table in the shape the kernel writes, naming directories that
/// exist on any unix host, a container root and kernel filesystems.
fn host_mount_table() -> Option<String> {
    Some(
        [
            "overlay / overlay rw,relatime,lowerdir=/a:/b 0 0",
            "proc /proc proc rw,nosuid,nodev,noexec,relatime 0 0",
            "tmpfs /dev tmpfs rw,nosuid,size=65536k,mode=755 0 0",
            "/dev/sda1 /etc ext4 rw,relatime 0 0",
            "/dev/sda1 /tmp ext4 rw,relatime 0 0",
            "/dev/sda2 / ext4 rw,relatime 0 0",
            "/dev/sdb1 /usr xfs rw 0 0",
            "/dev/sdb2 /usr/ xfs rw 0 0",
            "sysfs /sys sysfs ro 0 0",
        ]
        .join("\n"),
    )
}

#[test]
fn kernel_filesystems_are_not_storage() {
    assert!(!is_storage_filesystem("proc"));
    assert!(!is_storage_filesystem("tmpfs"));
    assert!(!is_storage_filesystem("cgroup2"));
    assert!(!is_storage_filesystem("overlay"));
    // An empty type is a malformed entry, not a drive.
    assert!(!is_storage_filesystem(""));
}

#[test]
fn real_filesystems_are_storage() {
    assert!(is_storage_filesystem("ext4"));
    assert!(is_storage_filesystem("xfs"));
    assert!(is_storage_filesystem("vfat"));
    assert!(is_storage_filesystem("nfs4"));
}

#[test]
fn parse_mounts_reads_the_first_three_fields() {
    let table = "/dev/sda2 / ext4 rw,relatime 0 0\nproc /proc proc rw 0 0\n";
    assert_eq!(
        parse_mounts(table),
        vec![
            ("/".to_string(), "ext4".to_string()),
            ("/proc".to_string(), "proc".to_string()),
        ]
    );
}

#[test]
fn parse_mounts_skips_truncated_lines() {
    assert!(parse_mounts("/dev/sda2 / ext4\n").len() == 1);
    assert!(parse_mounts("/dev/sda2\n").is_empty());
    assert!(parse_mounts("\n\n").is_empty());
}

#[test]
fn parse_mounts_decodes_octal_escapes() {
    // `/proc/mounts` writes a space in a path as `\040`.
    let table = "/dev/sdb1 /media/My\\040Disk ext4 rw 0 0\n";
    assert_eq!(
        parse_mounts(table),
        vec![("/media/My Disk".to_string(), "ext4".to_string())]
    );
}

#[test]
fn unescape_leaves_a_lone_backslash_and_non_octal_digits_alone() {
    assert_eq!(unescape_mount_field("a\\b"), "a\\b");
    assert_eq!(unescape_mount_field("a\\9x"), "a\\9x");
    assert_eq!(unescape_mount_field("plain"), "plain");
}

#[test]
fn unescape_preserves_multibyte_characters() {
    assert_eq!(unescape_mount_field("/media/Диск\\0401"), "/media/Диск 1");
}

#[test]
fn unescape_decodes_escapes_byte_wise() {
    // `\303\251` is the two bytes of `é` in UTF-8.
    assert_eq!(unescape_mount_field("a\\303\\251"), "aé");
    // A tab and a backslash are the other two escapes the kernel writes.
    assert_eq!(unescape_mount_field("a\\011b"), "a\tb");
    assert_eq!(unescape_mount_field("a\\134b"), "a\\b");
    // Only a full `\ooo` triple is an escape.
    assert_eq!(unescape_mount_field("C:\\"), "C:\\");
}

#[test]
fn mount_entries_without_a_live_mount_point_are_dropped() {
    let table = "/dev/sda1 /definitely/not/mounted/here ext4 rw 0 0\n";
    assert!(mounts_to_drives(table, is_dir).is_empty());
}

#[test]
fn mounted_drives_always_contains_the_root_once() {
    let table = host_mount_table();
    let drives = mounted_drives(table.as_deref(), is_dir);
    let roots = drives.iter().filter(|d| Path::new(&d.path) == Path::new("/")).count();
    assert_eq!(roots, 1, "root must be listed exactly once");
    assert!(!drives.is_empty());
}

#[test]
fn mounted_drives_is_sorted_and_unique() {
    let table = host_mount_table();
    let drives = mounted_drives(table.as_deref(), is_dir);
    for pair in drives.windows(2) {
        assert!(
            Path::new(&pair[0].path) < Path::new(&pair[1].path),
            "{:?} must sort before {:?}",
            pair[0],
            pair[1]
        );
    }
}

#[test]
fn mounted_drives_never_offers_a_kernel_filesystem() {
    let table = host_mount_table();
    for drive in mounted_drives(table.as_deref(), is_dir) {
        if let Some(label) = &drive.label {
            assert!(is_storage_filesystem(label), "{label} must not be offered as a drive");
        }
    }
}
