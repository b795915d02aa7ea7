use std::cmp::Ordering;
use std::path::Path;
use termide_drives::drives::{mounted_drives, sorted_unique_drives, Drive};
use termide_drives::mounts::{
    drives_from_entries, mounts_to_drives, octal_byte, parse_mounts, unescape_mount_field,
};
use termide_drives::paths::{compare_paths, paths_equal};
use termide_drives::sessions::{
    session_flags, sessions_modal_cursor, sessions_submenu_action, sessions_submenu_step,
    SessionsMenuStep, SessionsSubmenuAction, SessionsSubmenuItems, SubmenuNavAction,
};
use termide_drives::switcher::{
    directory_items, directory_switcher_cursor, directory_switcher_group, directory_switcher_listing,
    SwitcherListing,
    directory_switcher_target, sort_by_display, DirectoryItem, DirectoryTarget, PanelKind,
    SwitcherRefusal,
};
use termide_drives::text::{compare_text, is_whitespace_char, str_eq};

/// The probe the application uses: is the mount point a live directory?
fn is_dir(path: &str) -> bool {
    Path::new(path).is_dir()
}

fn drive(path: &str, label: Option<&str>) -> Drive {
    Drive { path: path.to_string(), label: label.map(|l| l.to_string()) }
}

/// What the standard library makes of a mount table, line by line.
fn std_parse(contents: &str) -> Vec<(String, String)> {
    contents
        .lines()
        .filter_map(|line| {
            let mut fields = line.split_whitespace();
            let _device = fields.next()?;
            let mount_point = fields.next()?;
            let fs_type = fields.next()?;
            Some((unescape_mount_field(mount_point), fs_type.to_string()))
        })
        .collect()
}

#[test]
fn whitespace_matches_char_is_whitespace() {
    for u in 0u32..0x11_0000 {
        if let Some(c) = char::from_u32(u) {
            assert_eq!(is_whitespace_char(c), c.is_whitespace(), "{u:#x}");
        }
    }
}

#[test]
fn octal_byte_reads_exactly_three_octal_digits() {
    let alphabet: &[u8] = b"+-0123478 9a\\\xc3";
    let mut cases: Vec<Vec<u8>> = vec![vec![], b"+".to_vec(), b"-".to_vec()];
    for &a in alphabet {
        cases.push(vec![a]);
        for &b in alphabet {
            cases.push(vec![a, b]);
            for &c in alphabet {
                cases.push(vec![a, b, c]);
            }
        }
    }
    cases.push(b"0377".to_vec());
    for case in cases {
        let digits = case.len() == 3 && case.iter().all(|b| (b'0'..=b'7').contains(b));
        let expected = if digits {
            u8::from_str_radix(std::str::from_utf8(&case).unwrap(), 8).ok()
        } else {
            None
        };
        assert_eq!(octal_byte(&case), expected, "{case:?}");
    }
}

#[test]
fn octal_escapes_decode_exact_values() {
    assert_eq!(octal_byte(b"040"), Some(32));
    assert_eq!(octal_byte(b"377"), Some(255));
    assert_eq!(octal_byte(b"400"), None);
    assert_eq!(octal_byte(b"+12"), None);
    assert_eq!(octal_byte(b"08x"), None);
}

#[test]
fn only_three_octal_digits_make_an_escape() {
    assert_eq!(unescape_mount_field("a\\+12b"), "a\\+12b");
    assert_eq!(unescape_mount_field("a\\-12b"), "a\\-12b");
    // 0o400 does not fit in a byte.
    assert_eq!(unescape_mount_field("a\\400"), "a\\400");
}

#[test]
fn unescape_undoes_the_kernel_escaping() {
    for s in ["/media/My Disk", "a\tb\nc\\d", "/mnt/Диск 1/é", "", "\\\\ \\"] {
        let escaped: String = s
            .chars()
            .map(|c| match c {
                ' ' => "\\040".to_string(),
                '\t' => "\\011".to_string(),
                '\n' => "\\012".to_string(),
                '\\' => "\\134".to_string(),
                c => c.to_string(),
            })
            .collect();
        assert_eq!(unescape_mount_field(&escaped), s);
        assert!(unescape_mount_field(&escaped).len() <= escaped.len());
    }
}

#[test]
fn joined_tables_parse_as_both() {
    let a = "/dev/a / ext4 rw 0 0\nshort line";
    let b = "/dev/b /x\\040y xfs rw 0 0\n";
    let mut expected = parse_mounts(a);
    expected.extend(parse_mounts(b));
    assert_eq!(parse_mounts(&format!("{a}\n{b}")), expected);
}

#[test]
fn unescape_replaces_invalid_utf8_bytes() {
    assert_eq!(unescape_mount_field("a\\377b"), "a\u{FFFD}b");
    assert_eq!(unescape_mount_field("\\303"), "\u{FFFD}");
}

#[test]
fn unescape_never_yields_more_characters_than_field_bytes() {
    let fields = ["\\", "a\\1", "a\\12", "a\\123", "\\303\\251", "\\377\\376\\375", "\\é", "x\\2é"];
    for field in fields {
        let text = unescape_mount_field(field);
        assert!(text.chars().count() <= field.len(), "{field:?}");
        assert!(text.len() <= field.len(), "{field:?}");
    }
    assert_eq!(unescape_mount_field("\\377\\376"), "\u{FFFD}\u{FFFD}");
    assert_eq!(unescape_mount_field("a\\12"), "a\\12");
}

#[test]
fn unescape_leaves_text_without_escapes_unchanged() {
    for s in ["", "/", "/media/Диск", "a b\tc", "日本語/パス"] {
        assert_eq!(unescape_mount_field(s), s);
    }
}

#[test]
fn parse_mounts_agrees_with_lines_and_split_whitespace() {
    let tables = [
        "",
        "\n",
        "a b c\r\nd e f g\r\n",
        "a\u{a0}b\u{3000}c\n  x   y   z  \n",
        "dev /mnt/\\040x ext4\nlonely\ntwo fields\n",
        "a b c",
        "\u{85}a\u{85}b\u{85}c\u{85}",
    ];
    for t in tables {
        assert_eq!(parse_mounts(t), std_parse(t), "{t:?}");
    }
}

#[test]
fn storage_entries_with_live_mount_points_become_drives() {
    let drives = mounts_to_drives("/dev/sda2 / ext4 rw 0 0\nproc /proc proc rw 0 0\n", is_dir);
    assert_eq!(drives, vec![drive("/", Some("ext4"))]);
}

#[test]
fn drives_from_entries_uses_the_liveness_given() {
    let entries = vec![
        ("/a".to_string(), "ext4".to_string()),
        ("/b".to_string(), "proc".to_string()),
        ("/c".to_string(), "xfs".to_string()),
        ("/d".to_string(), "btrfs".to_string()),
    ];
    let drives = drives_from_entries(entries, &vec![true, true, false, true]);
    assert_eq!(drives, vec![drive("/a", Some("ext4")), drive("/d", Some("btrfs"))]);
}

#[test]
fn path_order_matches_std_path() {
    let paths = [
        "", "/", "//", "/a", "/a/", "/a/b", "/a-b", "/a b", "/a/./b", "/a/../b", "/a//b", ".",
        "./a", "a", "a/", "..", "../a", "/é", "/z", "/Z", "/a.", "/.a", "/a/.", "/./a", "./",
        ".//a", "/..", "a/b/c", "/Диск",
    ];
    for p in paths {
        for q in paths {
            let expected = match Path::new(p).cmp(Path::new(q)) {
                Ordering::Less => -1,
                Ordering::Equal => 0,
                Ordering::Greater => 1,
            };
            assert_eq!(compare_paths(p, q), expected, "{p:?} vs {q:?}");
            assert_eq!(paths_equal(p, q), Path::new(p) == Path::new(q), "{p:?} == {q:?}");
        }
    }
}

#[test]
fn text_order_matches_str_order() {
    let texts = ["", "a", "ab", "b", "B", "é", "z", "~/x", "~", "Ä"];
    for a in texts {
        for b in texts {
            let expected = match a.cmp(b) {
                Ordering::Less => -1,
                Ordering::Equal => 0,
                Ordering::Greater => 1,
            };
            assert_eq!(compare_text(a, b), expected);
            assert_eq!(str_eq(a, b), a == b);
        }
    }
}

#[test]
fn sorted_unique_drives_keeps_the_first_of_each_path() {
    let drives = vec![
        drive("/usr", Some("xfs")),
        drive("/", Some("ext4")),
        drive("/a-b", Some("ext4")),
        drive("/a/b", Some("vfat")),
        drive("/usr/", Some("nfs4")),
    ];
    let sorted = sorted_unique_drives(drives, Some("/"));
    assert_eq!(
        sorted,
        vec![
            drive("/", Some("ext4")),
            drive("/a/b", Some("vfat")),
            drive("/a-b", Some("ext4")),
            drive("/usr", Some("xfs")),
        ]
    );
}

#[test]
fn sorted_unique_drives_without_root_adds_none() {
    let sorted = sorted_unique_drives(vec![drive("D:\\", None), drive("C:\\", None)], None);
    assert_eq!(sorted, vec![drive("C:\\", None), drive("D:\\", None)]);
    assert!(sorted_unique_drives(vec![], None).is_empty());
}

#[test]
fn unreadable_mount_table_leaves_the_root() {
    assert_eq!(mounted_drives(None, is_dir), vec![drive("/", None)]);
}

#[test]
fn a_listed_root_keeps_its_filesystem_type() {
    let drives = mounted_drives(Some("/dev/sda2 / ext4 rw 0 0\n/dev/sdb1 /tmp xfs rw 0 0\n"), is_dir);
    assert_eq!(drives, vec![drive("/", Some("ext4")), drive("/tmp", Some("xfs"))]);
}

#[test]
fn a_container_root_is_offered_without_label() {
    let drives = mounted_drives(Some("overlay / overlay rw 0 0\n"), is_dir);
    assert_eq!(drives, vec![drive("/", None)]);
}

#[test]
fn switcher_group_by_target() {
    let populated = vec![false, true, false, true, false];
    assert_eq!(directory_switcher_group(DirectoryTarget::Focused, 2, &populated), Some(2));
    assert_eq!(directory_switcher_group(DirectoryTarget::Focused, 5, &populated), None);
    assert_eq!(directory_switcher_group(DirectoryTarget::LeftmostColumn, 0, &populated), Some(1));
    assert_eq!(directory_switcher_group(DirectoryTarget::RightmostColumn, 0, &populated), Some(3));
    let empty = vec![false, false];
    assert_eq!(directory_switcher_group(DirectoryTarget::LeftmostColumn, 0, &empty), None);
    assert_eq!(directory_switcher_group(DirectoryTarget::RightmostColumn, 0, &empty), None);
}

#[test]
fn switcher_target_refusals() {
    assert!(matches!(directory_switcher_target(None, Some(PanelKind::FileManager)), Err(SwitcherRefusal::Unsupported)));
    assert!(matches!(directory_switcher_target(Some(1), None), Err(SwitcherRefusal::Unsupported)));
    assert!(matches!(directory_switcher_target(Some(1), Some(PanelKind::Other)), Err(SwitcherRefusal::Unsupported)));
    assert!(matches!(
        directory_switcher_target(Some(1), Some(PanelKind::Terminal { has_running_processes: true })),
        Err(SwitcherRefusal::ProcessRunning)
    ));
    assert!(matches!(
        directory_switcher_target(Some(1), Some(PanelKind::Terminal { has_running_processes: false })),
        Ok(1)
    ));
    assert!(matches!(directory_switcher_target(Some(2), Some(PanelKind::FileManager)), Ok(2)));
}

fn pair(p: &str, d: &str) -> (String, String) {
    (p.to_string(), d.to_string())
}

fn row(items: &[DirectoryItem]) -> Vec<(String, bool, bool, bool, Option<String>)> {
    items
        .iter()
        .map(|i| (i.path.clone(), i.is_current, i.is_bookmark, i.is_drive, i.label.clone()))
        .collect()
}

#[test]
fn directory_items_lead_with_drives_and_sort_the_rest() {
    let drives = vec![
        (drive("/", Some("ext4")), "/".to_string()),
        (drive("/mnt/usb", Some("vfat")), "/mnt/usb".to_string()),
    ];
    let panels = vec![pair("/mnt/usb/", "/mnt/usb"), pair("/home/u/src", "~/src"), pair("/home/u/a", "~/a")];
    let bookmarks = vec![pair("/home/u/src", "~/src"), pair("/etc", "/etc"), pair("/etc", "/etc")];
    let items = directory_items(drives, panels, bookmarks, Some("/mnt/usb"));
    assert_eq!(
        row(&items),
        vec![
            ("/".to_string(), false, false, true, Some("ext4".to_string())),
            ("/mnt/usb".to_string(), true, false, true, Some("vfat".to_string())),
            ("/etc".to_string(), false, true, false, None),
            ("/etc".to_string(), false, true, false, None),
            ("/home/u/a".to_string(), false, false, false, None),
            ("/home/u/src".to_string(), false, false, false, None),
        ]
    );
    assert_eq!(directory_switcher_cursor(&items), Some(1));
}

#[test]
fn sorting_by_display_is_stable() {
    let mk = |p: &str, d: &str| DirectoryItem {
        path: p.to_string(),
        display: d.to_string(),
        is_current: false,
        is_bookmark: false,
        is_drive: false,
        label: None,
    };
    let sorted = sort_by_display(vec![mk("1", "b"), mk("2", "a"), mk("3", "b"), mk("4", "a"), mk("5", "B")]);
    let paths: Vec<&str> = sorted.iter().map(|i| i.path.as_str()).collect();
    assert_eq!(paths, vec!["5", "2", "4", "1", "3"]);
}

#[test]
fn directory_cursor_defaults_to_the_first_row() {
    assert_eq!(directory_switcher_cursor(&vec![]), None);
    let items = directory_items(vec![], vec![pair("/x", "/x"), pair("/y", "/y")], vec![], Some("/z"));
    assert_eq!(directory_switcher_cursor(&items), Some(0));
    let items = directory_items(vec![], vec![pair("/x", "/x"), pair("/y", "/y")], vec![], Some("/y/"));
    assert_eq!(directory_switcher_cursor(&items), Some(1));
}

#[test]
fn sessions_list_needs_another_session() {
    let flags = session_flags(&vec!["/p/a".to_string(), "/p/b/".to_string()], "/p/b");
    assert_eq!(flags, vec![false, true]);
    assert_eq!(sessions_modal_cursor(&flags), Some(1));
    assert_eq!(sessions_modal_cursor(&vec![true]), None);
    assert_eq!(sessions_modal_cursor(&vec![]), None);
    assert_eq!(sessions_modal_cursor(&vec![false, false]), Some(0));
}

#[test]
fn sessions_submenu_keys_and_items() {
    assert!(matches!(sessions_submenu_step(SubmenuNavAction::Close), SessionsMenuStep::CloseMenu));
    assert!(matches!(sessions_submenu_step(SubmenuNavAction::Execute), SessionsMenuStep::ExecuteSelected));
    assert!(matches!(sessions_submenu_step(SubmenuNavAction::Right), SessionsMenuStep::NextMenu));
    assert!(matches!(sessions_submenu_step(SubmenuNavAction::Left), SessionsMenuStep::PreviousMenu));
    assert!(matches!(sessions_submenu_step(SubmenuNavAction::Delete), SessionsMenuStep::Stay));
    let items = SessionsSubmenuItems { new_session: 0, switch_session: 1, change_root: 2 };
    assert!(matches!(sessions_submenu_action(0, &items), Some(SessionsSubmenuAction::NewSession)));
    assert!(matches!(sessions_submenu_action(1, &items), Some(SessionsSubmenuAction::SwitchSession)));
    assert!(matches!(sessions_submenu_action(2, &items), Some(SessionsSubmenuAction::ChangeRoot)));
    assert!(sessions_submenu_action(3, &items).is_none());
}

#[test]
fn switcher_listing_needs_a_row() {
    assert!(matches!(directory_switcher_listing(3, vec![]), SwitcherListing::NoPaths));
    let items = directory_items(vec![], vec![pair("/x", "/x"), pair("/y", "/y")], vec![], Some("/y"));
    match directory_switcher_listing(3, items) {
        SwitcherListing::Open { group_index, items, cursor } => {
            assert_eq!(group_index, 3);
            assert_eq!(items.len(), 2);
            assert_eq!(cursor, 1);
        }
        SwitcherListing::NoPaths => panic!("rows were given"),
    }
}

#[test]
fn the_probe_is_asked_about_each_storage_mount_point() {
    let asked = std::cell::RefCell::new(Vec::new());
    let probe = |p: &str| {
        asked.borrow_mut().push(p.to_string());
        p != "/b"
    };
    let table = "d1 /a ext4 rw 0 0\nproc /proc proc rw 0 0\nd2 /b xfs rw 0 0\nd3 /c\\040d vfat rw 0 0\n";
    let drives = mounts_to_drives(table, probe);
    assert_eq!(*asked.borrow(), vec!["/a".to_string(), "/b".to_string(), "/c d".to_string()]);
    assert_eq!(drives, vec![drive("/a", Some("ext4")), drive("/c d", Some("vfat"))]);
    let listed = mounted_drives(Some(table), |p: &str| p == "/a");
    assert_eq!(listed, vec![drive("/", None), drive("/a", Some("ext4"))]);
}
