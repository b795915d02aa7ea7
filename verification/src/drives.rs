//! Drives offered by the directory switcher's drive section.
use vstd::prelude::*;
use crate::paths::{compare_paths, lemma_path_order_order, lemma_root_sorts_first, path_eq, path_order};
use crate::mounts::{is_storage_type, live_storage_drives, liveness_probed, mount_entries, mounts_to_drives};

verus! {

/// One selectable drive: a mount point plus an optional human label.
#[derive(Debug, Clone, PartialEq, Eq)]
pub struct Drive {
    /// Directory the panel navigates to when this drive is picked.
    pub path: String,
    /// Filesystem type or volume name, rendered dimmed after the path.
    pub label: Option<String>,
}

/// What a drive holds, as text.
pub struct DriveView {
    pub path: Seq<char>,
    pub label: Option<Seq<char>>,
}

impl View for Drive {
    type V = DriveView;

    open spec fn view(&self) -> DriveView {
        DriveView {
            path: self.path@,
            label: match self.label {
                Some(l) => Some(l@),
                None => None,
            },
        }
    }
}

/// The views of a sequence of drives.
pub open spec fn drives_view(s: Seq<Drive>) -> Seq<DriveView> {
    Seq::new(s.len(), |i: int| s[i]@)
}


/// The drives, then the root drive (unlabelled) when there is one.
pub open spec fn with_root(s: Seq<DriveView>, root: Option<Seq<char>>) -> Seq<DriveView> {
    match root {
        Some(r) => s.push(DriveView { path: r, label: None }),
        None => s,
    }
}

/// Each drive's path comes strictly before the next one's in `Path` order.
pub open spec fn strictly_sorted_by_path(s: Seq<DriveView>) -> bool {
    forall|i: int, j: int| 0 <= i < j < s.len() ==> path_order(#[trigger] s[i].path, #[trigger] s[j].path) < 0
}

/// No drive before position `i` names the same path as the one at `i`.
pub open spec fn first_with_its_path(all: Seq<DriveView>, i: int) -> bool {
    forall|k: int| 0 <= k < i ==> !path_eq(#[trigger] all[k].path, all[i].path)
}

/// Some drive of `res` names the path `p`.
#[verifier::opaque]
pub open spec fn lists_path(res: Seq<DriveView>, p: Seq<char>) -> bool {
    exists|j: int| 0 <= j < res.len() && path_eq(#[trigger] res[j].path, p)
}

/// `d` is the first drive of `all` that names its path.
#[verifier::opaque]
pub open spec fn is_first_of_its_path(all: Seq<DriveView>, d: DriveView) -> bool {
    exists|i: int| 0 <= i < all.len() && #[trigger] all[i] == d && first_with_its_path(all, i)
}

/// `res` is `all` sorted by path with later drives naming an already listed
/// path dropped: strictly sorted, every path of `all` is listed, and each
/// listed drive is the first drive of `all` with its path.
pub open spec fn sorted_unique_of(all: Seq<DriveView>, res: Seq<DriveView>) -> bool {
    &&& strictly_sorted_by_path(res)
    &&& forall|i: int| 0 <= i < all.len() ==> lists_path(res, #[trigger] all[i].path)
    &&& forall|j: int| 0 <= j < res.len() ==> is_first_of_its_path(all, #[trigger] res[j])
}

proof fn lemma_first_extends(all: Seq<DriveView>, d: DriveView)
    requires
        all.len() > 0,
        is_first_of_its_path(all.drop_last(), d),
    ensures
        is_first_of_its_path(all, d),
{
    reveal(lists_path);
    reveal(is_first_of_its_path);
    let prev = all.drop_last();
    let i = choose|i: int| 0 <= i < prev.len() && #[trigger] prev[i] == d && first_with_its_path(prev, i);
    assert(all[i] == prev[i]);
    assert forall|k: int| 0 <= k < i implies !path_eq(#[trigger] all[k].path, all[i].path) by {
        assert(all[k] == prev[k]);
    }
}

proof fn lemma_keep_listed(all: Seq<DriveView>, before: Seq<DriveView>, j: int)
    requires
        all.len() > 0,
        sorted_unique_of(all.drop_last(), before),
        0 <= j < before.len(),
        path_eq(before[j].path, all.last().path),
    ensures
        sorted_unique_of(all, before),
{
    reveal(lists_path);
    reveal(is_first_of_its_path);
    let prev = all.drop_last();
    let m = prev.len() as int;
    assert forall|i: int| 0 <= i < all.len() implies lists_path(before, #[trigger] all[i].path) by {
        if i < m {
            assert(all[i] == prev[i]);
            assert(lists_path(before, prev[i].path));
        } else {
            assert(path_eq(before[j].path, all[i].path));
        }
    }
    assert forall|jj: int| 0 <= jj < before.len() implies is_first_of_its_path(all, #[trigger] before[jj]) by {
        lemma_first_extends(all, before[jj]);
    }
}

proof fn lemma_insert_sorted(before: Seq<DriveView>, x: DriveView, j: int)
    requires
        strictly_sorted_by_path(before),
        0 <= j <= before.len(),
        forall|k: int| 0 <= k < j ==> path_order(#[trigger] before[k].path, x.path) < 0,
        forall|k: int| j <= k < before.len() ==> path_order(x.path, #[trigger] before[k].path) < 0,
    ensures
        strictly_sorted_by_path(before.insert(j, x)),
{
    let after = before.insert(j, x);
    assert forall|a: int, b: int| 0 <= a < b < after.len() implies path_order(#[trigger] after[a].path, #[trigger] after[b].path) < 0 by {
        if a < j && b > j {
            assert(after[b] == before[b - 1]);
            lemma_path_order_order(after[a].path, x.path, after[b].path);
        } else if a > j {
            assert(after[a] == before[a - 1]);
            assert(after[b] == before[b - 1]);
        } else if a == j {
            assert(after[b] == before[b - 1]);
        }
    }
}

proof fn lemma_insert_new(all: Seq<DriveView>, before: Seq<DriveView>, j: int)
    requires
        all.len() > 0,
        sorted_unique_of(all.drop_last(), before),
        0 <= j <= before.len(),
        forall|k: int| 0 <= k < before.len() ==> !path_eq(#[trigger] before[k].path, all.last().path),
        strictly_sorted_by_path(before.insert(j, all.last())),
    ensures
        sorted_unique_of(all, before.insert(j, all.last())),
{
    reveal(lists_path);
    reveal(is_first_of_its_path);
    let prev = all.drop_last();
    let m = prev.len() as int;
    let after = before.insert(j, all.last());
    assert forall|i: int| 0 <= i < all.len() implies lists_path(after, #[trigger] all[i].path) by {
        if i < m {
            assert(all[i] == prev[i]);
            assert(lists_path(before, prev[i].path));
            let jj = choose|jj: int| 0 <= jj < before.len() && path_eq(#[trigger] before[jj].path, prev[i].path);
            if jj < j {
                assert(after[jj] == before[jj]);
            } else {
                assert(after[jj + 1] == before[jj]);
            }
        } else {
            assert(after[j] == all[i]);
        }
    }
    assert forall|jj: int| 0 <= jj < after.len() implies is_first_of_its_path(all, #[trigger] after[jj]) by {
        if jj == j {
            assert(after[jj] == all[m]);
            assert forall|k: int| 0 <= k < m implies !path_eq(#[trigger] all[k].path, all[m].path) by {
                assert(all[k] == prev[k]);
                assert(lists_path(before, prev[k].path));
            }
            assert(first_with_its_path(all, m));
        } else {
            let b = if jj < j { jj } else { jj - 1 };
            assert(after[jj] == before[b]);
            lemma_first_extends(all, before[b]);
        }
    }
}

proof fn lemma_insert_position(all: Seq<DriveView>, before: Seq<DriveView>, j: int, c: int)
    requires
        all.len() > 0,
        sorted_unique_of(all.drop_last(), before),
        0 <= j <= before.len(),
        forall|k: int| 0 <= k < j ==> path_order(#[trigger] before[k].path, all.last().path) < 0,
        j < before.len() ==> c == path_order(before[j].path, all.last().path) && c > 0,
    ensures
        sorted_unique_of(all, before.insert(j, all.last())),
{
    let x = all.last();
    assert forall|k: int| j <= k < before.len() implies path_order(x.path, #[trigger] before[k].path) < 0 by {
        lemma_path_order_order(before[j].path, x.path, x.path);
        lemma_path_order_order(x.path, before[j].path, before[k].path);
        if k > j {
            assert(path_order(before[j].path, before[k].path) < 0);
        }
    }
    assert forall|k: int| 0 <= k < before.len() implies !path_eq(#[trigger] before[k].path, x.path) by {
        lemma_path_order_order(before[k].path, x.path, x.path);
        lemma_path_order_order(x.path, before[k].path, x.path);
    }
    lemma_insert_sorted(before, x, j);
    lemma_insert_new(all, before, j);
}

/// The first position whose drive does not come before `d`, and how that
/// drive's path compares with the path of `d`.
fn insert_position(out: &Vec<Drive>, d: &Drive) -> (r: (usize, i8))
    ensures
        r.0 <= out@.len(),
        forall|k: int| 0 <= k < r.0 ==> path_order(#[trigger] drives_view(out@)[k].path, d@.path) < 0,
        r.0 < out@.len() ==> r.1 as int == path_order(drives_view(out@)[r.0 as int].path, d@.path) && r.1 >= 0,
{
    let ghost before = drives_view(out@);
    let mut j: usize = 0;
    while j < out.len()
        invariant
            j <= out@.len(),
            before == drives_view(out@),
            forall|k: int| 0 <= k < j ==> path_order(#[trigger] before[k].path, d@.path) < 0,
        decreases out@.len() - j,
    {
        let c = compare_paths(out[j].path.as_str(), d.path.as_str());
        assert(before[j as int] == out@[j as int]@);
        if c >= 0 {
            return (j, c);
        }
        j = j + 1;
    }
    (j, 1)
}

/// Insert `d` into a list strictly sorted by path, unless a drive with the
/// same path is listed already.
fn insert_drive(out: &mut Vec<Drive>, d: Drive, Ghost(all): Ghost<Seq<DriveView>>)
    requires
        all.len() > 0,
        all.last() == d@,
        sorted_unique_of(all.drop_last(), drives_view(old(out)@)),
    ensures
        sorted_unique_of(all, drives_view(final(out)@)),
{
    let ghost before = drives_view(out@);
    let (j, c) = insert_position(out, &d);
    if j < out.len() && c == 0 {
        // a drive with this path is listed already: keep the earlier one
        proof {
            lemma_path_order_order(before[j as int].path, d@.path, d@.path);
            lemma_keep_listed(all, before, j as int);
        }
        return;
    }
    proof {
        lemma_insert_position(all, before, j as int, c as int);
    }
    out.insert(j, d);
    assert(drives_view(out@) =~= before.insert(j as int, all.last()));
}

/// The drives sorted by path, without duplicates; a drive naming the same
/// path as an earlier one is dropped, and the root (when given) is considered
/// after all of `drives`, so a listed filesystem keeps its label.
pub fn sorted_unique_drives(drives: Vec<Drive>, root: Option<&str>) -> (r: Vec<Drive>)
    ensures
        sorted_unique_of(
            with_root(drives_view(drives@), text_view(root)),
            drives_view(r@),
        ),
{
    let ghost all = with_root(drives_view(drives@), text_view(root));
    let ghost dv = drives_view(drives@);
    let mut out: Vec<Drive> = Vec::new();
    let mut i: usize = 0;
    let n = drives.len();
    assert(sorted_unique_of(dv.take(0), drives_view(out@)));
    for d in it: drives
        invariant
            n == dv.len(),
            dv == drives_view(drives@),
            it.seq() == drives@,
            i == it.index(),
            sorted_unique_of(dv.take(i as int), drives_view(out@)),
    {
        assert(dv.take(i + 1).drop_last() =~= dv.take(i as int));
        assert(dv[i as int] == d@);
        insert_drive(&mut out, d, Ghost(dv.take(i + 1)));
        i = i + 1;
    }
    assert(dv.take(n as int) =~= dv);
    match root {
        Some(s) => {
            let rd = Drive { path: s.to_owned(), label: None };
            assert(all.drop_last() =~= dv);
            insert_drive(&mut out, rd, Ghost(all));
        },
        None => {},
    }
    out
}


/// When some drive names the root's path, the row kept for that path is one
/// of the drives (the first one naming it, with its label), never the
/// unlabelled root that was added after them.
pub proof fn lemma_listed_root_keeps_its_entry(drives: Seq<DriveView>, root: Seq<char>, res: Seq<DriveView>, k: int)
    requires
        sorted_unique_of(with_root(drives, Some(root)), res),
        0 <= k < drives.len(),
        path_eq(drives[k].path, root),
    ensures
        forall|j: int|
            0 <= j < res.len() && path_eq(#[trigger] res[j].path, root) ==> exists|i: int|
                0 <= i < drives.len() && res[j] == #[trigger] drives[i] && first_with_its_path(drives, i),
{
    reveal(is_first_of_its_path);
    let all = with_root(drives, Some(root));
    assert forall|j: int| 0 <= j < res.len() && path_eq(#[trigger] res[j].path, root) implies exists|i: int|
        0 <= i < drives.len() && res[j] == #[trigger] drives[i] && first_with_its_path(drives, i) by {
        assert(is_first_of_its_path(all, res[j]));
        let i = choose|i: int| 0 <= i < all.len() && #[trigger] all[i] == res[j] && first_with_its_path(all, i);
        if i == drives.len() {
            assert(all[k] == drives[k]);
            assert(path_eq(all[k].path, all[i].path));
        }
        assert(all[i] == drives[i]);
        assert forall|m: int| 0 <= m < i implies !path_eq(#[trigger] drives[m].path, drives[i].path) by {
            assert(all[m] == drives[m]);
        }
    }
}

/// The text of an optional string.
pub open spec fn text_view(s: Option<&str>) -> Option<Seq<char>> {
    match s {
        Some(c) => Some(c@),
        None => None,
    }
}

/// When the mount table was read, each storage entry's liveness is an answer
/// of the probe for its mount point.
pub open spec fn table_probed<F: Fn(&str) -> bool>(is_live: F, mount_table: Option<Seq<char>>, live: Seq<bool>) -> bool {
    match mount_table {
        Some(c) => liveness_probed(is_live, mount_entries(c), live),
        None => true,
    }
}

/// The drives a mount table lists, given which mount points are live; none
/// when the table could not be read.
pub open spec fn table_drives(mount_table: Option<Seq<char>>, live: Seq<bool>) -> Seq<DriveView> {
    match mount_table {
        Some(c) => live_storage_drives(mount_entries(c), live),
        None => Seq::empty(),
    }
}

/// Already-mounted drives, sorted by path, without duplicates, root first.
///
/// `mount_table` is the text of the process's mount table, or `None` when it
/// could not be read; the list then holds the root alone. `is_live` tells
/// whether a mount point is still a live directory; it is asked about the
/// mount point of each storage entry. The root is offered so the list is
/// never empty; when the mount table lists it too, the table's entry (with
/// its filesystem type) is the one kept.
pub fn mounted_drives(mount_table: Option<&str>, is_live: impl Fn(&str) -> bool) -> (r: Vec<Drive>)
    requires
        forall|p: &str| #[trigger] call_requires(is_live, (p,)),
    ensures
        exists|live: Seq<bool>|
            table_probed(is_live, text_view(mount_table), live) && #[trigger] sorted_unique_of(
                with_root(
                    table_drives(text_view(mount_table), live),
                    Some("/"@),
                ),
                drives_view(r@),
            ),
        strictly_sorted_by_path(drives_view(r@)),
        r@.len() > 0,
        path_eq(r@[0]@.path, "/"@),
        forall|k: int| 0 < k < r@.len() ==> !path_eq((#[trigger] r@[k])@.path, "/"@),
        forall|k: int|
            0 <= k < r@.len() ==> ((#[trigger] r@[k])@.label is Some ==> is_storage_type(
                r@[k]@.label->0,
            )),
{
    let found = match mount_table {
        Some(contents) => mounts_to_drives(contents, is_live),
        None => Vec::new(),
    };
    let ghost tv = text_view(mount_table);
    let ghost live = if let Some(c) = mount_table {
        choose|live: Seq<bool>| liveness_probed(is_live, mount_entries(c@), live) && drives_view(found@) == #[trigger] live_storage_drives(mount_entries(c@), live)
    } else {
        Seq::<bool>::empty()
    };
    assert(drives_view(found@) =~= table_drives(tv, live));
    let ghost fv = drives_view(found@);
    let r = sorted_unique_drives(found, Some("/"));
    let ghost all = with_root(fv, Some("/"@));
    let ghost res = drives_view(r@);
    proof {
        reveal_strlit("/");
        reveal(lists_path);
        reveal(is_first_of_its_path);
        // every listed drive has a non-empty path and, when labelled, a storage label
        assert forall|i: int| 0 <= i < all.len() implies (#[trigger] all[i]).path.len() > 0 && (all[i].label is Some ==> is_storage_type(all[i].label->0)) by {
            if i < fv.len() {
                assert(fv[i] == found@[i]@);
            }
        }
        let root_index = all.len() - 1;
        assert(all[root_index].path == "/"@);
        assert(lists_path(res, all[root_index].path));
        let j = choose|j: int| 0 <= j < res.len() && path_eq(#[trigger] res[j].path, "/"@);
        assert(res.len() > 0);
        assert(is_first_of_its_path(all, res[0]));
        let i0 = choose|i: int| 0 <= i < all.len() && #[trigger] all[i] == res[0] && first_with_its_path(all, i);
        lemma_root_sorts_first(res[0].path);
        if j > 0 {
            assert(path_order(res[0].path, res[j].path) < 0);
            reveal(path_order);
            assert(path_order(res[0].path, "/"@) < 0);
            lemma_path_order_order(res[0].path, "/"@, "/"@);
        }
        assert(path_eq(res[0].path, "/"@));
        assert forall|k: int| 0 < k < r@.len() implies !path_eq((#[trigger] r@[k])@.path, "/"@) by {
            assert(res[k] == r@[k]@);
            assert(path_order(res[0].path, res[k].path) < 0);
            lemma_path_order_order(res[0].path, res[k].path, res[k].path);
        }
        assert forall|k: int| 0 <= k < r@.len() && (#[trigger] r@[k])@.label is Some implies is_storage_type(r@[k]@.label->0) by {
            assert(res[k] == r@[k]@);
            assert(is_first_of_its_path(all, res[k]));
        }
        assert(r@[0]@ == res[0]);
    }
    r
}

} // verus!
