# termide_drives

The drive list and directory-switcher decisions of a terminal file manager,
verified with Verus.

- `src/text.rs` — splitting text into lines and whitespace-separated fields,
  Unicode whitespace, byte-wise string order.
- `src/mounts.rs` — the mount-table parser: octal escapes, filesystem-type
  filter, live mount points.
- `src/paths.rs` — component-wise path order and equality (unix), and the
  fact that `/` sorts first.
- `src/drives.rs` — the drive list: sorted by path, duplicates dropped, root
  listed once and first.
- `src/switcher.rs` — which column the directory switcher acts on, whether it
  opens, the rows it lists and where its cursor starts.
- `src/sessions.rs` — the sessions menu: current session, cursor, keys and
  items.
- `app/` — platform glue: reading `/proc/self/mounts`, listing volume
  directories, the working directory.
