//! Decisions of the directory switcher: which column it acts on, whether the
//! panel there can switch directory, and the list of directories it offers.
use vstd::prelude::*;
use vstd::utf8::*;
use crate::drives::{text_view, Drive, DriveView};
use crate::mounts::pairs_view;
use crate::paths::{path_eq, paths_equal};
use crate::text::{bytes_order, compare_text, lemma_bytes_order_props, lemma_bytes_order_trans};

verus! {

/// Which panel the directory switcher acts on.
pub enum DirectoryTarget {
    /// The focused panel.
    Focused,
    /// The panel in the leftmost column that still holds one.
    LeftmostColumn,
    /// The panel in the rightmost column that still holds one.
    RightmostColumn,
}

/// Column index the target addresses, if the layout still has that column.
///
/// `focus` is the focused column and `populated[i]` tells whether column `i`
/// still holds a panel.
pub fn directory_switcher_group(target: DirectoryTarget, focus: usize, populated: &Vec<bool>) -> (r: Option<usize>)
    ensures
        target is Focused ==> r == (if focus < populated@.len() { Some(focus) } else { None }),
        target is LeftmostColumn ==> match r {
            Some(i) => i < populated@.len() && populated@[i as int] && forall|k: int|
                0 <= k < i ==> !#[trigger] populated@[k],
            None => forall|k: int| 0 <= k < populated@.len() ==> !#[trigger] populated@[k],
        },
        target is RightmostColumn ==> match r {
            Some(i) => i < populated@.len() && populated@[i as int] && forall|k: int|
                i < k < populated@.len() ==> !#[trigger] populated@[k],
            None => forall|k: int| 0 <= k < populated@.len() ==> !#[trigger] populated@[k],
        },
{
    match target {
        DirectoryTarget::Focused => {
            if focus < populated.len() {
                Some(focus)
            } else {
                None
            }
        },
        DirectoryTarget::LeftmostColumn => {
            let mut i: usize = 0;
            while i < populated.len()
                invariant
                    target is LeftmostColumn,
                    i <= populated@.len(),
                    forall|k: int| 0 <= k < i ==> !#[trigger] populated@[k],
                decreases populated@.len() - i,
            {
                if populated[i] {
                    return Some(i);
                }
                i = i + 1;
            }
            None
        },
        DirectoryTarget::RightmostColumn => {
            let mut i: usize = populated.len();
            while i > 0
                invariant
                    target is RightmostColumn,
                    i <= populated@.len(),
                    forall|k: int| i <= k < populated@.len() ==> !#[trigger] populated@[k],
                decreases i,
            {
                if populated[i - 1] {
                    return Some(i - 1);
                }
                i = i - 1;
            }
            None
        },
    }
}

/// What the expanded panel of the target column is.
pub enum PanelKind {
    /// A terminal; `cd` cannot reach it while a process runs in it.
    Terminal { has_running_processes: bool },
    /// A file manager.
    FileManager,
    /// Any other panel.
    Other,
}

/// Why the directory switcher does not open.
pub enum SwitcherRefusal {
    /// No panel that can switch directory: no such column, no expanded panel,
    /// or a panel that is neither a terminal nor a file manager.
    Unsupported,
    /// The target terminal runs a process, so `cd` would not reach its shell.
    ProcessRunning,
}

/// The column the switcher acts on, or why it refuses: `group` is the
/// resolved column and `panel` its expanded panel, if any.
pub fn directory_switcher_target(group: Option<usize>, panel: Option<PanelKind>) -> (r: Result<usize, SwitcherRefusal>)
    ensures
        group is None ==> r == Err::<usize, SwitcherRefusal>(SwitcherRefusal::Unsupported),
        group is Some ==> r == match panel {
            None => Err(SwitcherRefusal::Unsupported),
            Some(PanelKind::Other) => Err(SwitcherRefusal::Unsupported),
            Some(PanelKind::Terminal { has_running_processes: true }) => Err(SwitcherRefusal::ProcessRunning),
            Some(_) => Ok(group->0),
        },
{
    match group {
        None => Err(SwitcherRefusal::Unsupported),
        Some(g) => match panel {
            None => Err(SwitcherRefusal::Unsupported),
            Some(PanelKind::Other) => Err(SwitcherRefusal::Unsupported),
            Some(PanelKind::Terminal { has_running_processes }) => {
                if has_running_processes {
                    Err(SwitcherRefusal::ProcessRunning)
                } else {
                    Ok(g)
                }
            },
            Some(PanelKind::FileManager) => Ok(g),
        },
    }
}

/// One row of the directory switcher.
pub struct DirectoryItem {
    pub path: String,
    /// The path as shown (home shortened).
    pub display: String,
    /// The target panel sits in this directory.
    pub is_current: bool,
    pub is_bookmark: bool,
    pub is_drive: bool,
    /// A drive's filesystem type or volume name.
    pub label: Option<String>,
}

/// What a row holds, as text.
pub struct ItemView {
    pub path: Seq<char>,
    pub display: Seq<char>,
    pub is_current: bool,
    pub is_bookmark: bool,
    pub is_drive: bool,
    pub label: Option<Seq<char>>,
}

impl View for DirectoryItem {
    type V = ItemView;

    open spec fn view(&self) -> ItemView {
        ItemView {
            path: self.path@,
            display: self.display@,
            is_current: self.is_current,
            is_bookmark: self.is_bookmark,
            is_drive: self.is_drive,
            label: match self.label {
                Some(l) => Some(l@),
                None => None,
            },
        }
    }
}

pub open spec fn items_view(s: Seq<DirectoryItem>) -> Seq<ItemView> {
    Seq::new(s.len(), |i: int| s[i]@)
}

pub open spec fn strings_view(s: Seq<String>) -> Seq<Seq<char>> {
    Seq::new(s.len(), |i: int| s[i]@)
}

/// `p` is the directory the target panel sits in.
pub open spec fn is_current_path(current: Option<Seq<char>>, p: Seq<char>) -> bool {
    match current {
        Some(c) => path_eq(c, p),
        None => false,
    }
}

/// One of `paths` names the same path as `p`.
#[verifier::opaque]
pub open spec fn names_path(paths: Seq<Seq<char>>, p: Seq<char>) -> bool {
    exists|k: int| 0 <= k < paths.len() && path_eq(#[trigger] paths[k], p)
}

/// Whether one of `paths` names the same path as `p`.
fn names_path_exec(paths: &Vec<String>, p: &str) -> (r: bool)
    ensures
        r == names_path(strings_view(paths@), p@),
{
    reveal(names_path);
    let ghost sv = strings_view(paths@);
    let mut k: usize = 0;
    while k < paths.len()
        invariant
            k <= paths@.len(),
            sv == strings_view(paths@),
            forall|j: int| 0 <= j < k ==> !path_eq(#[trigger] sv[j], p@),
        decreases paths@.len() - k,
    {
        if paths_equal(paths[k].as_str(), p) {
            assert(sv[k as int] == paths@[k as int]@);
            assert(path_eq(sv[k as int], p@));
            proof {
                reveal(names_path);
            }
            return true;
        }
        k = k + 1;
    }
    false
}

/// The first component of each pair.
pub open spec fn firsts(e: Seq<(Seq<char>, Seq<char>)>) -> Seq<Seq<char>> {
    Seq::new(e.len(), |i: int| e[i].0)
}

/// The drive rows, in the order given: `(drive, display)` pairs.
pub open spec fn drive_items(drives: Seq<(DriveView, Seq<char>)>, current: Option<Seq<char>>) -> Seq<ItemView> {
    Seq::new(
        drives.len(),
        |i: int|
            ItemView {
                path: drives[i].0.path,
                display: drives[i].1,
                is_current: is_current_path(current, drives[i].0.path),
                is_bookmark: false,
                is_drive: true,
                label: drives[i].0.label,
            },
    )
}

/// The rows of panel directories, in the order given: each `(path, display)`
/// whose path is not named by `known` (the drives) or an earlier panel.
pub open spec fn panel_items(
    known: Seq<Seq<char>>,
    panels: Seq<(Seq<char>, Seq<char>)>,
    current: Option<Seq<char>>,
) -> Seq<ItemView>
    decreases panels.len(),
{
    if panels.len() == 0 {
        Seq::empty()
    } else {
        let prev = panel_items(known, panels.drop_last(), current);
        let p = panels.last();
        if names_path(known + firsts(panels.drop_last()), p.0) {
            prev
        } else {
            prev.push(
                ItemView {
                    path: p.0,
                    display: p.1,
                    is_current: is_current_path(current, p.0),
                    is_bookmark: false,
                    is_drive: false,
                    label: None,
                },
            )
        }
    }
}

/// A panel sitting on a listed drive adds no row of its own: no panel row
/// names the path of a drive.
pub proof fn lemma_panel_rows_name_no_drive(
    known: Seq<Seq<char>>,
    panels: Seq<(Seq<char>, Seq<char>)>,
    current: Option<Seq<char>>,
)
    ensures
        forall|r: int|
            0 <= r < panel_items(known, panels, current).len() ==> !names_path(
                known,
                (#[trigger] panel_items(known, panels, current)[r]).path,
            ),
    decreases panels.len(),
{
    if panels.len() > 0 {
        let d = panels.drop_last();
        lemma_panel_rows_name_no_drive(known, d, current);
        let prev = panel_items(known, d, current);
        let rows = panel_items(known, panels, current);
        assert forall|r: int| 0 <= r < rows.len() implies !names_path(known, (#[trigger] rows[r]).path) by {
            if r < prev.len() {
                assert(rows[r] == prev[r]);
            } else {
                let p = panels.last().0;
                assert(rows[r].path == p);
                reveal(names_path);
                let all = known + firsts(d);
                if names_path(known, p) {
                    let k = choose|k: int| 0 <= k < known.len() && path_eq(#[trigger] known[k], p);
                    assert(all[k] == known[k]);
                }
            }
        }
    }
}

/// The rows of bookmarked directories, in the order given: each bookmark
/// whose path is not named by `seen` (the drives and panel directories).
pub open spec fn bookmark_items(
    seen: Seq<Seq<char>>,
    bookmarks: Seq<(Seq<char>, Seq<char>)>,
    current: Option<Seq<char>>,
) -> Seq<ItemView>
    decreases bookmarks.len(),
{
    if bookmarks.len() == 0 {
        Seq::empty()
    } else {
        let prev = bookmark_items(seen, bookmarks.drop_last(), current);
        let b = bookmarks.last();
        if names_path(seen, b.0) {
            prev
        } else {
            prev.push(
                ItemView {
                    path: b.0,
                    display: b.1,
                    is_current: is_current_path(current, b.0),
                    is_bookmark: true,
                    is_drive: false,
                    label: None,
                },
            )
        }
    }
}

/// How two rows order by what they show.
pub open spec fn display_order(a: ItemView, b: ItemView) -> int {
    bytes_order(encode_utf8(a.display), encode_utf8(b.display))
}

/// Some position of `perm` holds `x`.
pub open spec fn placed(perm: Seq<int>, x: int) -> bool {
    exists|i: int| 0 <= i < perm.len() && perm[i] == x
}

/// `output` is `input` rearranged by the permutation `perm`
/// (`output[i] == input[perm[i]]`, every input row placed exactly once),
/// ordered by display, with rows that show the same text kept in their input
/// order.
pub open spec fn stable_sorting(input: Seq<ItemView>, output: Seq<ItemView>, perm: Seq<int>) -> bool {
    &&& perm.len() == input.len()
    &&& output.len() == input.len()
    &&& forall|i: int| 0 <= i < perm.len() ==> 0 <= #[trigger] perm[i] < input.len()
    &&& forall|i: int, j: int| 0 <= i < j < perm.len() ==> #[trigger] perm[i] != #[trigger] perm[j]
    &&& forall|x: int| 0 <= x < input.len() ==> #[trigger] placed(perm, x)
    &&& forall|i: int| 0 <= i < output.len() ==> #[trigger] output[i] == input[perm[i]]
    &&& forall|i: int, j: int|
        0 <= i < j < output.len() ==> display_order(#[trigger] output[i], #[trigger] output[j]) <= 0
    &&& forall|i: int, j: int|
        0 <= i < j < output.len() && display_order(#[trigger] output[i], #[trigger] output[j]) == 0
            ==> perm[i] < perm[j]
}

/// `output` is the stable sort of `input` by display.
pub open spec fn stably_sorted_by_display(input: Seq<ItemView>, output: Seq<ItemView>) -> bool {
    exists|perm: Seq<int>| stable_sorting(input, output, perm)
}

proof fn lemma_display_order_le_trans(a: ItemView, b: ItemView, c: ItemView)
    requires
        display_order(a, b) <= 0,
        display_order(b, c) <= 0,
    ensures
        display_order(a, c) <= 0,
{
    let (x, y, z) = (encode_utf8(a.display), encode_utf8(b.display), encode_utf8(c.display));
    lemma_bytes_order_props(x, y);
    lemma_bytes_order_props(y, z);
    lemma_bytes_order_props(x, z);
    if bytes_order(x, y) < 0 && bytes_order(y, z) < 0 {
        lemma_bytes_order_trans(x, y, z);
    }
}

proof fn lemma_insert_stable(input: Seq<ItemView>, out: Seq<ItemView>, perm: Seq<int>, x: ItemView, p: int)
    requires
        stable_sorting(input, out, perm),
        0 <= p <= out.len(),
        forall|k: int| 0 <= k < p ==> display_order(#[trigger] out[k], x) <= 0,
        forall|k: int| p <= k < out.len() ==> display_order(#[trigger] out[k], x) > 0,
    ensures
        stable_sorting(input.push(x), out.insert(p, x), perm.insert(p, input.len() as int)),
{
    let n = input.len() as int;
    let inp = input.push(x);
    let o = out.insert(p, x);
    let q = perm.insert(p, n);
    assert forall|i: int| 0 <= i < q.len() implies 0 <= #[trigger] q[i] < inp.len() by {
        if i < p {
            assert(q[i] == perm[i]);
        } else if i > p {
            assert(q[i] == perm[i - 1]);
        }
    }
    assert forall|i: int, j: int| 0 <= i < j < q.len() implies #[trigger] q[i] != #[trigger] q[j] by {
        if i < p && j < p {
        } else if i < p && j == p {
            assert(q[i] == perm[i]);
        } else if i < p {
            assert(q[i] == perm[i]);
            assert(q[j] == perm[j - 1]);
        } else if i == p {
            assert(q[j] == perm[j - 1]);
        } else {
            assert(q[i] == perm[i - 1]);
            assert(q[j] == perm[j - 1]);
        }
    }
    assert forall|x: int| 0 <= x < inp.len() implies #[trigger] placed(q, x) by {
        if x == n {
            assert(q[p] == n);
        } else {
            assert(placed(perm, x));
            let i = choose|i: int| 0 <= i < perm.len() && perm[i] == x;
            if i < p {
                assert(q[i] == perm[i]);
            } else {
                assert(q[i + 1] == perm[i]);
            }
        }
    }
    assert forall|i: int| 0 <= i < o.len() implies #[trigger] o[i] == inp[q[i]] by {
        if i < p {
            assert(o[i] == out[i]);
            assert(q[i] == perm[i]);
        } else if i > p {
            assert(o[i] == out[i - 1]);
            assert(q[i] == perm[i - 1]);
        }
    }
    assert forall|i: int, j: int| 0 <= i < j < o.len() implies display_order(#[trigger] o[i], #[trigger] o[j]) <= 0 by {
        if i < p && j > p {
            assert(o[j] == out[j - 1]);
            lemma_bytes_order_props(encode_utf8(out[j - 1].display), encode_utf8(x.display));
            lemma_display_order_le_trans(o[i], x, o[j]);
        } else if i == p {
            assert(o[j] == out[j - 1]);
            lemma_bytes_order_props(encode_utf8(out[j - 1].display), encode_utf8(x.display));
        } else if i > p {
            assert(o[i] == out[i - 1]);
            assert(o[j] == out[j - 1]);
        }
    }
    assert forall|i: int, j: int| 0 <= i < j < o.len() && display_order(#[trigger] o[i], #[trigger] o[j]) == 0 implies q[i] < q[j] by {
        if i < p && j < p {
        } else if i < p && j == p {
            assert(q[i] == perm[i]);
        } else if i < p {
            assert(o[j] == out[j - 1]);
            assert(q[i] == perm[i]);
            assert(q[j] == perm[j - 1]);
        } else if i == p {
            assert(o[j] == out[j - 1]);
            lemma_bytes_order_props(encode_utf8(out[j - 1].display), encode_utf8(x.display));
        } else {
            assert(o[i] == out[i - 1]);
            assert(o[j] == out[j - 1]);
            assert(q[i] == perm[i - 1]);
            assert(q[j] == perm[j - 1]);
        }
    }
}

/// Sort rows by what they show, keeping rows that show the same text in
/// their given order.
pub fn sort_by_display(items: Vec<DirectoryItem>) -> (r: Vec<DirectoryItem>)
    ensures
        stably_sorted_by_display(items_view(items@), items_view(r@)),
{
    let ghost input = items_view(items@);
    let n = items.len();
    let mut out: Vec<DirectoryItem> = Vec::new();
    let ghost mut perm: Seq<int> = Seq::empty();
    let mut i: usize = 0;
    assert(input.take(0) =~= Seq::<ItemView>::empty());
    assert(stable_sorting(input.take(0), items_view(out@), perm));
    for x in it: items
        invariant
            n == input.len(),
            input == items_view(items@),
            it.seq() == items@,
            i == it.index(),
            stable_sorting(input.take(i as int), items_view(out@), perm),
    {
        let ghost before = items_view(out@);
        let mut p: usize = out.len();
        loop
            invariant
                p <= out@.len(),
                before == items_view(out@),
                forall|k: int| p <= k < out@.len() ==> display_order(#[trigger] before[k], x@) > 0,
            ensures
                p <= out@.len(),
                before == items_view(out@),
                forall|k: int| p <= k < out@.len() ==> display_order(#[trigger] before[k], x@) > 0,
                p > 0 ==> display_order(before[p - 1], x@) <= 0,
            decreases p,
        {
            if p == 0 {
                break;
            }
            let c = compare_text(out[p - 1].display.as_str(), x.display.as_str());
            assert(before[p - 1] == out@[p - 1]@);
            if c <= 0 {
                break;
            }
            p = p - 1;
        }
        proof {
            let prefix = input.take(i as int);
            assert forall|k: int| 0 <= k < p implies display_order(#[trigger] before[k], x@) <= 0 by {
                if k < p - 1 {
                    lemma_display_order_le_trans(before[k], before[p - 1], x@);
                }
            }
            lemma_insert_stable(prefix, before, perm, x@, p as int);
            assert(input.take(i + 1) =~= prefix.push(x@));
            perm = perm.insert(p as int, i as int);
        }
        out.insert(p, x);
        assert(items_view(out@) =~= before.insert(p as int, input[i as int]));
        i = i + 1;
    }
    assert(input.take(n as int) =~= input);
    out
}


/// The `(drive, display)` pairs as text.
pub open spec fn drive_pairs_view(d: Seq<(Drive, String)>) -> Seq<(DriveView, Seq<char>)> {
    Seq::new(d.len(), |i: int| (d[i].0@, d[i].1@))
}

/// The paths of the drives.
pub open spec fn drive_paths(d: Seq<(DriveView, Seq<char>)>) -> Seq<Seq<char>> {
    Seq::new(d.len(), |i: int| d[i].0.path)
}

/// The rows after the drives, before sorting: the panel directories, then
/// the bookmarks that name no drive or panel directory.
pub open spec fn directory_rows(
    drives: Seq<(DriveView, Seq<char>)>,
    panels: Seq<(Seq<char>, Seq<char>)>,
    bookmarks: Seq<(Seq<char>, Seq<char>)>,
    current: Option<Seq<char>>,
) -> Seq<ItemView> {
    panel_items(drive_paths(drives), panels, current) + bookmark_items(
        drive_paths(drives) + firsts(panels),
        bookmarks,
        current,
    )
}

/// The rows of panel directories: each names one of the panels, is neither a
/// bookmark nor a drive, no two name the same path, and every panel's path is
/// named by a drive (in `known`) or by one of these rows.
proof fn lemma_panel_rows(
    known: Seq<Seq<char>>,
    panels: Seq<(Seq<char>, Seq<char>)>,
    current: Option<Seq<char>>,
)
    ensures
        forall|r: int| 0 <= r < panel_items(known, panels, current).len() ==> {
            &&& exists|i: int| 0 <= i < panels.len() && #[trigger] panels[i].0 == (#[trigger] panel_items(known, panels, current)[r]).path
            &&& !panel_items(known, panels, current)[r].is_bookmark
            &&& !panel_items(known, panels, current)[r].is_drive
            &&& panel_items(known, panels, current)[r].is_current == is_current_path(current, panel_items(known, panels, current)[r].path)
        },
        forall|r: int, s: int| 0 <= r < s < panel_items(known, panels, current).len() ==> !path_eq(
            (#[trigger] panel_items(known, panels, current)[r]).path,
            (#[trigger] panel_items(known, panels, current)[s]).path,
        ),
        forall|i: int| 0 <= i < panels.len() ==> names_path(known, (#[trigger] panels[i]).0) || exists|r: int|
            0 <= r < panel_items(known, panels, current).len() && path_eq(
                (#[trigger] panel_items(known, panels, current)[r]).path,
                panels[i].0,
            ),
    decreases panels.len(),
{
    reveal(names_path);
    if panels.len() > 0 {
        let d = panels.drop_last();
        lemma_panel_rows(known, d, current);
        let prev = panel_items(known, d, current);
        let rows = panel_items(known, panels, current);
        let p = panels.last();
        let all = known + firsts(d);
        let n = panels.len() - 1;
        assert forall|i: int| 0 <= i < n implies #[trigger] d[i] == panels[i] by {}
        assert forall|r: int| 0 <= r < prev.len() implies #[trigger] rows[r] == prev[r] by {}
        assert forall|r: int| 0 <= r < rows.len() implies {
            &&& exists|i: int| 0 <= i < panels.len() && #[trigger] panels[i].0 == (#[trigger] rows[r]).path
            &&& !rows[r].is_bookmark
            &&& !rows[r].is_drive
            &&& rows[r].is_current == is_current_path(current, rows[r].path)
        } by {
            if r < prev.len() {
                let i = choose|i: int| 0 <= i < d.len() && #[trigger] d[i].0 == (#[trigger] prev[r]).path;
                assert(panels[i] == d[i]);
            } else {
                assert(panels[n].0 == rows[r].path);
            }
        }
        assert forall|r: int, s: int| 0 <= r < s < rows.len() implies !path_eq(
            (#[trigger] rows[r]).path,
            (#[trigger] rows[s]).path,
        ) by {
            if s >= prev.len() {
                let i = choose|i: int| 0 <= i < d.len() && #[trigger] d[i].0 == (#[trigger] prev[r]).path;
                assert(all[known.len() + i] == d[i].0);
                assert(!names_path(all, p.0));
            }
        }
        assert forall|i: int| 0 <= i < panels.len() implies names_path(known, (#[trigger] panels[i]).0) || exists|r: int|
            0 <= r < rows.len() && path_eq((#[trigger] rows[r]).path, panels[i].0) by {
            if i < n {
                assert(d[i] == panels[i]);
                if !names_path(known, d[i].0) {
                    let r = choose|r: int| 0 <= r < prev.len() && path_eq((#[trigger] prev[r]).path, d[i].0);
                    assert(rows[r] == prev[r]);
                }
            } else if names_path(all, p.0) {
                let k = choose|k: int| 0 <= k < all.len() && path_eq(#[trigger] all[k], p.0);
                if k < known.len() {
                    assert(all[k] == known[k]);
                } else {
                    let j = k - known.len();
                    assert(all[k] == d[j].0);
                    if names_path(known, d[j].0) {
                        let m = choose|m: int| 0 <= m < known.len() && path_eq(#[trigger] known[m], d[j].0);
                        assert(path_eq(known[m], p.0));
                    } else {
                        let r = choose|r: int| 0 <= r < prev.len() && path_eq((#[trigger] prev[r]).path, d[j].0);
                        assert(rows[r] == prev[r]);
                        assert(path_eq(rows[r].path, p.0));
                    }
                }
            } else {
                assert(rows[prev.len() as int].path == p.0);
            }
        }
    }
}

/// The rows of bookmarked directories: each is a bookmark row, not a drive,
/// naming none of `seen`, and every bookmark's path is named by `seen` or by
/// one of these rows.
proof fn lemma_bookmark_rows(
    seen: Seq<Seq<char>>,
    bookmarks: Seq<(Seq<char>, Seq<char>)>,
    current: Option<Seq<char>>,
)
    ensures
        forall|r: int| 0 <= r < bookmark_items(seen, bookmarks, current).len() ==> {
            &&& !names_path(seen, (#[trigger] bookmark_items(seen, bookmarks, current)[r]).path)
            &&& bookmark_items(seen, bookmarks, current)[r].is_bookmark
            &&& !bookmark_items(seen, bookmarks, current)[r].is_drive
            &&& bookmark_items(seen, bookmarks, current)[r].is_current == is_current_path(current, bookmark_items(seen, bookmarks, current)[r].path)
        },
        forall|i: int| 0 <= i < bookmarks.len() ==> names_path(seen, (#[trigger] bookmarks[i]).0) || exists|r: int|
            0 <= r < bookmark_items(seen, bookmarks, current).len() && path_eq(
                (#[trigger] bookmark_items(seen, bookmarks, current)[r]).path,
                bookmarks[i].0,
            ),
    decreases bookmarks.len(),
{
    if bookmarks.len() > 0 {
        let d = bookmarks.drop_last();
        lemma_bookmark_rows(seen, d, current);
        let prev = bookmark_items(seen, d, current);
        let rows = bookmark_items(seen, bookmarks, current);
        let n = bookmarks.len() - 1;
        assert forall|r: int| 0 <= r < prev.len() implies #[trigger] rows[r] == prev[r] by {}
        assert forall|r: int| 0 <= r < rows.len() implies {
            &&& !names_path(seen, (#[trigger] rows[r]).path)
            &&& rows[r].is_bookmark
            &&& !rows[r].is_drive
            &&& rows[r].is_current == is_current_path(current, rows[r].path)
        } by {
            if r < prev.len() {
                assert(rows[r] == prev[r]);
            }
        }
        assert forall|i: int| 0 <= i < bookmarks.len() implies names_path(seen, (#[trigger] bookmarks[i]).0) || exists|r: int|
            0 <= r < rows.len() && path_eq((#[trigger] rows[r]).path, bookmarks[i].0) by {
            if i < n {
                assert(d[i] == bookmarks[i]);
                if !names_path(seen, d[i].0) {
                    let r = choose|r: int| 0 <= r < prev.len() && path_eq((#[trigger] prev[r]).path, d[i].0);
                    assert(rows[r] == prev[r]);
                }
            } else if !names_path(seen, bookmarks[i].0) {
                assert(rows[prev.len() as int].path == bookmarks[i].0);
            }
        }
    }
}

/// The rows after the drives, before sorting: none names a drive's path; no
/// two name the same path unless both are bookmarks (a directory bookmarked
/// twice); none is a drive row; and every panel directory and bookmark is
/// named by a drive or by one of the rows.
pub proof fn lemma_directory_rows(
    drives: Seq<(DriveView, Seq<char>)>,
    panels: Seq<(Seq<char>, Seq<char>)>,
    bookmarks: Seq<(Seq<char>, Seq<char>)>,
    current: Option<Seq<char>>,
)
    ensures
        forall|x: int, d: int|
            0 <= x < directory_rows(drives, panels, bookmarks, current).len() && 0 <= d < drives.len() ==> !path_eq(
                (#[trigger] directory_rows(drives, panels, bookmarks, current)[x]).path,
                (#[trigger] drives[d]).0.path,
            ),
        forall|x: int, y: int|
            0 <= x < directory_rows(drives, panels, bookmarks, current).len()
                && 0 <= y < directory_rows(drives, panels, bookmarks, current).len() && x != y
                && !(directory_rows(drives, panels, bookmarks, current)[x].is_bookmark
                && directory_rows(drives, panels, bookmarks, current)[y].is_bookmark) ==> !path_eq(
                (#[trigger] directory_rows(drives, panels, bookmarks, current)[x]).path,
                (#[trigger] directory_rows(drives, panels, bookmarks, current)[y]).path,
            ),
        forall|x: int|
            0 <= x < directory_rows(drives, panels, bookmarks, current).len() ==> !(#[trigger] directory_rows(
                drives,
                panels,
                bookmarks,
                current,
            )[x]).is_drive && directory_rows(drives, panels, bookmarks, current)[x].is_current == is_current_path(
                current,
                directory_rows(drives, panels, bookmarks, current)[x].path,
            ),
        forall|i: int|
            0 <= i < panels.len() ==> (exists|d: int| 0 <= d < drives.len() && path_eq((#[trigger] drives[d]).0.path, (#[trigger] panels[i]).0))
                || (exists|x: int| 0 <= x < directory_rows(drives, panels, bookmarks, current).len() && path_eq(
                (#[trigger] directory_rows(drives, panels, bookmarks, current)[x]).path,
                panels[i].0,
            )),
        forall|i: int|
            0 <= i < bookmarks.len() ==> (exists|d: int| 0 <= d < drives.len() && path_eq((#[trigger] drives[d]).0.path, (#[trigger] bookmarks[i]).0))
                || (exists|x: int| 0 <= x < directory_rows(drives, panels, bookmarks, current).len() && path_eq(
                (#[trigger] directory_rows(drives, panels, bookmarks, current)[x]).path,
                bookmarks[i].0,
            )),
{
    reveal(names_path);
    let known = drive_paths(drives);
    let seen = known + firsts(panels);
    let pr = panel_items(known, panels, current);
    let br = bookmark_items(seen, bookmarks, current);
    let rows = directory_rows(drives, panels, bookmarks, current);
    assert(rows == pr + br);
    lemma_panel_rows(known, panels, current);
    lemma_panel_rows_name_no_drive(known, panels, current);
    lemma_bookmark_rows(seen, bookmarks, current);
    let np = pr.len() as int;
    assert forall|x: int| 0 <= x < rows.len() implies #[trigger] rows[x] == (if x < np { pr[x] } else { br[x - np] }) by {}
    assert forall|d: int| 0 <= d < drives.len() implies #[trigger] seen[d] == drives[d].0.path by {
        assert(known[d] == drives[d].0.path);
    }
    assert forall|j: int| 0 <= j < panels.len() implies #[trigger] seen[known.len() + j] == panels[j].0 by {}
    assert forall|x: int, d: int| 0 <= x < rows.len() && 0 <= d < drives.len() implies !path_eq(
        (#[trigger] rows[x]).path,
        (#[trigger] drives[d]).0.path,
    ) by {
        assert(known[d] == drives[d].0.path);
        if x < np {
            assert(!names_path(known, pr[x].path));
        } else {
            assert(!names_path(seen, br[x - np].path));
            assert(seen[d] == drives[d].0.path);
        }
    }
    assert forall|x: int, y: int|
        0 <= x < rows.len() && 0 <= y < rows.len() && x != y && !(rows[x].is_bookmark && rows[y].is_bookmark) implies !path_eq(
        (#[trigger] rows[x]).path,
        (#[trigger] rows[y]).path,
    ) by {
        if x < np && y < np {
            if x < y {
                assert(!path_eq(pr[x].path, pr[y].path));
            } else {
                assert(!path_eq(pr[y].path, pr[x].path));
            }
        } else if x < np {
            let i = choose|i: int| 0 <= i < panels.len() && #[trigger] panels[i].0 == (#[trigger] pr[x]).path;
            assert(!names_path(seen, br[y - np].path));
            assert(seen[known.len() + i] == panels[i].0);
        } else if y < np {
            let i = choose|i: int| 0 <= i < panels.len() && #[trigger] panels[i].0 == (#[trigger] pr[y]).path;
            assert(!names_path(seen, br[x - np].path));
            assert(seen[known.len() + i] == panels[i].0);
        }
    }
    assert forall|x: int| 0 <= x < rows.len() implies !(#[trigger] rows[x]).is_drive && rows[x].is_current == is_current_path(current, rows[x].path) by {
        if x < np {
            assert(!pr[x].is_drive);
        } else {
            assert(!br[x - np].is_drive);
        }
    }
    assert forall|i: int| 0 <= i < panels.len() implies (exists|d: int| 0 <= d < drives.len() && path_eq((#[trigger] drives[d]).0.path, (#[trigger] panels[i]).0))
        || (exists|x: int| 0 <= x < rows.len() && path_eq((#[trigger] rows[x]).path, panels[i].0)) by {
        if names_path(known, panels[i].0) {
            let m = choose|m: int| 0 <= m < known.len() && path_eq(#[trigger] known[m], panels[i].0);
            assert(known[m] == drives[m].0.path);
        } else {
            let r = choose|r: int| 0 <= r < pr.len() && path_eq((#[trigger] pr[r]).path, panels[i].0);
            assert(rows[r] == pr[r]);
        }
    }
    assert forall|i: int| 0 <= i < bookmarks.len() implies (exists|d: int| 0 <= d < drives.len() && path_eq((#[trigger] drives[d]).0.path, (#[trigger] bookmarks[i]).0))
        || (exists|x: int| 0 <= x < rows.len() && path_eq((#[trigger] rows[x]).path, bookmarks[i].0)) by {
        let b = bookmarks[i].0;
        if names_path(seen, b) {
            let k = choose|k: int| 0 <= k < seen.len() && path_eq(#[trigger] seen[k], b);
            if k < known.len() {
                assert(seen[k] == drives[k].0.path);
            } else {
                let j = k - known.len();
                assert(seen[known.len() + j] == panels[j].0);
                if names_path(known, panels[j].0) {
                    let m = choose|m: int| 0 <= m < known.len() && path_eq(#[trigger] known[m], panels[j].0);
                    assert(known[m] == drives[m].0.path);
                    assert(path_eq(drives[m].0.path, b));
                } else {
                    let r = choose|r: int| 0 <= r < pr.len() && path_eq((#[trigger] pr[r]).path, panels[j].0);
                    assert(rows[r] == pr[r]);
                    assert(path_eq(rows[r].path, b));
                }
            }
        } else {
            let r = choose|r: int| 0 <= r < br.len() && path_eq((#[trigger] br[r]).path, b);
            assert(rows[np + r] == br[r]);
        }
    }
}

fn is_current_dir(current_dir: Option<&str>, p: &str) -> (r: bool)
    ensures
        r == is_current_path(text_view(current_dir), p@),
{
    match current_dir {
        Some(c) => paths_equal(c, p),
        None => false,
    }
}

/// The rows of the directory switcher: the mounted drives first, in the
/// order given, then the directories the panels sit in and the bookmarked
/// directories, sorted by what they show. Each entry comes with its display
/// form. A panel directory that names a drive or an earlier panel directory
/// adds no row, nor does a bookmark that names a drive or a panel directory;
/// a row is current when it names `current_dir`.
#[verifier::rlimit(40)]
pub fn directory_items(
    drives: Vec<(Drive, String)>,
    panel_paths: Vec<(String, String)>,
    bookmarks: Vec<(String, String)>,
    current_dir: Option<&str>,
) -> (r: Vec<DirectoryItem>)
    ensures
        r@.len() >= drives@.len(),
        items_view(r@).take(drives@.len() as int) == drive_items(drive_pairs_view(drives@), text_view(current_dir)),
        stably_sorted_by_display(
            directory_rows(drive_pairs_view(drives@), pairs_view(panel_paths@), pairs_view(bookmarks@), text_view(current_dir)),
            items_view(r@).skip(drives@.len() as int),
        ),
        // no row after the drives names a drive's path
        forall|k: int, d: int|
            drives@.len() <= k < r@.len() && 0 <= d < drives@.len() ==> !path_eq(
                (#[trigger] r@[k]).path@,
                (#[trigger] drives@[d]).0.path@,
            ),
        // the rows after the drives name different paths, but for a directory
        // bookmarked twice
        forall|k: int, m: int|
            drives@.len() <= k < m < r@.len() && !(r@[k].is_bookmark && r@[m].is_bookmark) ==> !path_eq(
                (#[trigger] r@[k]).path@,
                (#[trigger] r@[m]).path@,
            ),
        forall|k: int| drives@.len() <= k < r@.len() ==> !(#[trigger] r@[k]).is_drive,
        // a row is current exactly when it names the current directory
        forall|k: int| 0 <= k < r@.len() ==> (#[trigger] r@[k]).is_current == is_current_path(text_view(current_dir), r@[k].path@),
        // every panel directory and every bookmark is offered by some row
        forall|i: int|
            0 <= i < panel_paths@.len() ==> exists|k: int|
                0 <= k < r@.len() && path_eq((#[trigger] r@[k]).path@, (#[trigger] panel_paths@[i]).0@),
        forall|i: int|
            0 <= i < bookmarks@.len() ==> exists|k: int|
                0 <= k < r@.len() && path_eq((#[trigger] r@[k]).path@, (#[trigger] bookmarks@[i]).0@),
{
    let ghost cur = text_view(current_dir);
    let ghost dv = drive_pairs_view(drives@);
    let ghost pv = pairs_view(panel_paths@);
    let ghost bv = pairs_view(bookmarks@);
    let nd = drives.len();
    let np = panel_paths.len();
    let nb = bookmarks.len();
    let mut items: Vec<DirectoryItem> = Vec::new();
    let mut seen: Vec<String> = Vec::new();
    let mut i: usize = 0;
    assert(items_view(items@) =~= drive_items(dv.take(0), cur));
    assert(strings_view(seen@) =~= drive_paths(dv.take(0)));
    for pair in it: drives
        invariant
            nd == dv.len(),
            dv == drive_pairs_view(drives@),
            cur == text_view(current_dir),
            it.seq() == drives@,
            i == it.index(),
            items_view(items@) == drive_items(dv.take(i as int), cur),
            strings_view(seen@) == drive_paths(dv.take(i as int)),
    {
        assert(i < nd);
        assert(items_view(items@).len() == i);
        let (drive, display) = pair;
        assert(dv[i as int] == (drive@, display@));
        let is_current = is_current_dir(current_dir, drive.path.as_str());
        let ghost old_items = items_view(items@);
        let ghost old_seen = strings_view(seen@);
        seen.push(drive.path.as_str().to_owned());
        items.push(
            DirectoryItem {
                path: drive.path,
                display,
                is_current,
                is_bookmark: false,
                is_drive: true,
                label: drive.label,
            },
        );
        let ghost row = drive_items(dv.take(i + 1), cur)[i as int];
        assert(items_view(items@) =~= old_items.push(row));
        assert(drive_items(dv.take(i + 1), cur) =~= drive_items(dv.take(i as int), cur).push(row));
        assert(strings_view(seen@) =~= old_seen.push(dv[i as int].0.path));
        assert(drive_paths(dv.take(i + 1)) =~= drive_paths(dv.take(i as int)).push(dv[i as int].0.path));
        i = i + 1;
    }
    assert(dv.take(nd as int) =~= dv);
    let ghost known = drive_paths(dv);
    let mut rest: Vec<DirectoryItem> = Vec::new();
    let mut j: usize = 0;
    assert(pv.take(0) =~= Seq::<(Seq<char>, Seq<char>)>::empty());
    assert(strings_view(seen@) =~= known + firsts(pv.take(0)));
    assert(items_view(rest@) =~= panel_items(known, pv.take(0), cur));
    for pair in it: panel_paths
        invariant
            np == pv.len(),
            pv == pairs_view(panel_paths@),
            cur == text_view(current_dir),
            it.seq() == panel_paths@,
            j == it.index(),
            items_view(rest@) == panel_items(known, pv.take(j as int), cur),
            strings_view(seen@) == known + firsts(pv.take(j as int)),
    {
        let (path, display) = pair;
        assert(pv[j as int] == (path@, display@));
        assert(pv.take(j + 1).drop_last() =~= pv.take(j as int));
        // A panel sitting on a listed directory is that row, already marked
        // current when it is: currentness depends only on the path.
        let known_path = names_path_exec(&seen, path.as_str());
        let is_current = is_current_dir(current_dir, path.as_str());
        let ghost old_rest = items_view(rest@);
        let ghost old_seen = strings_view(seen@);
        seen.push(path.as_str().to_owned());
        assert(j < np);
        assert(strings_view(seen@) =~= old_seen.push(path@));
        assert(firsts(pv.take(j + 1)) =~= firsts(pv.take(j as int)).push(path@));
        assert(strings_view(seen@) =~= known + firsts(pv.take(j + 1)));
        if !known_path {
            rest.push(
                DirectoryItem {
                    path,
                    display,
                    is_current,
                    is_bookmark: false,
                    is_drive: false,
                    label: None,
                },
            );
        }
        assert(items_view(rest@) =~= panel_items(known, pv.take(j + 1), cur));
        j = j + 1;
    }
    assert(pv.take(np as int) =~= pv);
    let ghost panel_rows = items_view(rest@);
    let ghost all_seen = strings_view(seen@);
    let mut k: usize = 0;
    assert(bv.take(0) =~= Seq::<(Seq<char>, Seq<char>)>::empty());
    assert(items_view(rest@) =~= panel_rows + bookmark_items(all_seen, bv.take(0), cur));
    for pair in it: bookmarks
        invariant
            nb == bv.len(),
            bv == pairs_view(bookmarks@),
            cur == text_view(current_dir),
            it.seq() == bookmarks@,
            k == it.index(),
            all_seen == strings_view(seen@),
            items_view(rest@) == panel_rows + bookmark_items(all_seen, bv.take(k as int), cur),
    {
        let (path, display) = pair;
        assert(bv[k as int] == (path@, display@));
        assert(bv.take(k + 1).drop_last() =~= bv.take(k as int));
        let ghost old_rest = items_view(rest@);
        let ghost prev_marks = bookmark_items(all_seen, bv.take(k as int), cur);
        if !names_path_exec(&seen, path.as_str()) {
            let is_current = is_current_dir(current_dir, path.as_str());
            let ghost row = ItemView {
                path: path@,
                display: display@,
                is_current,
                is_bookmark: true,
                is_drive: false,
                label: None,
            };
            assert(bookmark_items(all_seen, bv.take(k + 1), cur) == prev_marks.push(row));
            assert((panel_rows + prev_marks).push(row) =~= panel_rows + prev_marks.push(row));
            rest.push(
                DirectoryItem {
                    path,
                    display,
                    is_current,
                    is_bookmark: true,
                    is_drive: false,
                    label: None,
                },
            );
        }
        assert(k < nb);
        assert(bv.take(k + 1).last() == bv[k as int]);
        assert(items_view(rest@) =~= panel_rows + bookmark_items(all_seen, bv.take(k + 1), cur));
        k = k + 1;
    }
    assert(bv.take(nb as int) =~= bv);
    let ghost unsorted = items_view(rest@);
    let sorted = sort_by_display(rest);
    let ghost head = items_view(items@);
    let ghost tail = items_view(sorted@);
    let ns = sorted.len();
    let mut m: usize = 0;
    assert(items_view(items@) =~= head + tail.take(0));
    for x in it: sorted
        invariant
            ns == tail.len(),
            tail == items_view(sorted@),
            it.seq() == sorted@,
            m == it.index(),
            items_view(items@) == head + tail.take(m as int),
    {
        assert(m < ns);
        assert(tail[m as int] == x@);
        let ghost old_items = items_view(items@);
        items.push(x);
        assert(items_view(items@) =~= old_items.push(tail[m as int]));
        assert(tail.take(m + 1) =~= tail.take(m as int).push(tail[m as int]));
        assert(items_view(items@) =~= head + tail.take(m + 1));
        m = m + 1;
    }
    assert(tail.take(ns as int) =~= tail);
    assert(items_view(items@).take(nd as int) =~= head);
    assert(items_view(items@).skip(nd as int) =~= tail);
    proof {
        let rows = directory_rows(dv, pv, bv, cur);
        lemma_directory_rows(dv, pv, bv, cur);
        let perm = choose|perm: Seq<int>| stable_sorting(unsorted, tail, perm);
        assert(unsorted == rows);
        let all = items_view(items@);
        assert forall|k: int| nd <= k < all.len() implies #[trigger] all[k] == rows[perm[k - nd]] by {
            assert(all[k] == tail[k - nd]);
        }
        assert forall|k: int| 0 <= k < nd implies (#[trigger] all[k]).path == dv[k].0.path by {
            assert(all[k] == head[k]);
        }
        assert forall|k: int| 0 <= k < all.len() implies #[trigger] items@[k]@ == all[k] by {}
        assert forall|k: int, d: int|
            nd <= k < items@.len() && 0 <= d < nd implies !path_eq(
            (#[trigger] items@[k]).path@,
            (#[trigger] drives@[d]).0.path@,
        ) by {
            assert(all[k] == rows[perm[k - nd]]);
            assert(dv[d].0.path == drives@[d].0.path@);
            assert(!path_eq(rows[perm[k - nd]].path, dv[d].0.path));
        }
        assert forall|k: int, m: int|
            nd <= k < m < items@.len() && !(items@[k].is_bookmark && items@[m].is_bookmark) implies !path_eq(
            (#[trigger] items@[k]).path@,
            (#[trigger] items@[m]).path@,
        ) by {
            assert(all[k] == rows[perm[k - nd]]);
            assert(all[m] == rows[perm[m - nd]]);
            assert(perm[k - nd] != perm[m - nd]);
        }
        assert forall|k: int| nd <= k < items@.len() implies !(#[trigger] items@[k]).is_drive by {
            assert(all[k] == rows[perm[k - nd]]);
        }
        assert forall|k: int| 0 <= k < items@.len() implies (#[trigger] items@[k]).is_current == is_current_path(cur, items@[k].path@) by {
            if k < nd {
                assert(all[k] == head[k]);
            } else {
                assert(all[k] == rows[perm[k - nd]]);
            }
        }
        assert forall|x: int| 0 <= x < rows.len() implies exists|k: int|
            0 <= k < items@.len() && #[trigger] items@[k]@ == #[trigger] rows[x] by {
            assert(placed(perm, x));
            let i = choose|i: int| 0 <= i < perm.len() && perm[i] == x;
            assert(all[nd + i] == rows[perm[i]]);
            assert(items@[nd + i]@ == all[nd + i]);
        }
        assert forall|i: int| 0 <= i < panel_paths@.len() implies exists|k: int|
            0 <= k < items@.len() && path_eq((#[trigger] items@[k]).path@, (#[trigger] panel_paths@[i]).0@) by {
            assert(pv[i].0 == panel_paths@[i].0@);
            if exists|d: int| 0 <= d < dv.len() && path_eq((#[trigger] dv[d]).0.path, pv[i].0) {
                let d = choose|d: int| 0 <= d < dv.len() && path_eq((#[trigger] dv[d]).0.path, pv[i].0);
                assert(all[d].path == dv[d].0.path);
                assert(items@[d]@ == all[d]);
            } else {
                let x = choose|x: int| 0 <= x < rows.len() && path_eq((#[trigger] rows[x]).path, pv[i].0);
                let k = choose|k: int| 0 <= k < items@.len() && #[trigger] items@[k]@ == #[trigger] rows[x];
                assert(items@[k].path@ == rows[x].path);
            }
        }
        assert forall|i: int| 0 <= i < bookmarks@.len() implies exists|k: int|
            0 <= k < items@.len() && path_eq((#[trigger] items@[k]).path@, (#[trigger] bookmarks@[i]).0@) by {
            assert(bv[i].0 == bookmarks@[i].0@);
            if exists|d: int| 0 <= d < dv.len() && path_eq((#[trigger] dv[d]).0.path, bv[i].0) {
                let d = choose|d: int| 0 <= d < dv.len() && path_eq((#[trigger] dv[d]).0.path, bv[i].0);
                assert(all[d].path == dv[d].0.path);
                assert(items@[d]@ == all[d]);
            } else {
                let x = choose|x: int| 0 <= x < rows.len() && path_eq((#[trigger] rows[x]).path, bv[i].0);
                let k = choose|k: int| 0 <= k < items@.len() && #[trigger] items@[k]@ == #[trigger] rows[x];
                assert(items@[k].path@ == rows[x].path);
            }
        }
    }
    items
}

/// The row the switcher's cursor starts on: `None` when there is no row
/// (nothing to offer), else the first current row, or the first row when
/// none is current.
pub fn directory_switcher_cursor(items: &Vec<DirectoryItem>) -> (r: Option<usize>)
    ensures
        r is None <==> items@.len() == 0,
        r matches Some(c) ==> c < items@.len(),
        r matches Some(c) ==> (items@[c as int].is_current && forall|k: int| 0 <= k < c ==> !(#[trigger] items@[k]).is_current)
            || (c == 0 && forall|k: int| 0 <= k < items@.len() ==> !(#[trigger] items@[k]).is_current),
{
    if items.len() == 0 {
        return None;
    }
    let mut i: usize = 0;
    while i < items.len()
        invariant
            i <= items@.len(),
            items@.len() > 0,
            forall|k: int| 0 <= k < i ==> !(#[trigger] items@[k]).is_current,
        decreases items@.len() - i,
    {
        if items[i].is_current {
            return Some(i);
        }
        i = i + 1;
    }
    Some(0)
}

/// What the directory switcher shows once its target column is settled.
pub enum SwitcherListing {
    /// There is no directory to offer.
    NoPaths,
    /// The switcher opens on `items` for the column `group_index`, with the
    /// cursor on row `cursor`.
    Open { group_index: usize, items: Vec<DirectoryItem>, cursor: usize },
}

/// The switcher for column `group_index` over `items`: nothing to offer when
/// there is no row, else the rows with the cursor on the first current row
/// (or the first row).
pub fn directory_switcher_listing(group_index: usize, items: Vec<DirectoryItem>) -> (r: SwitcherListing)
    ensures
        items@.len() == 0 <==> r is NoPaths,
        r matches SwitcherListing::Open { group_index: g, items: rows, cursor } ==> {
            &&& g == group_index
            &&& rows@ == items@
            &&& cursor < items@.len()
            &&& (items@[cursor as int].is_current && forall|k: int| 0 <= k < cursor ==> !(#[trigger] items@[k]).is_current)
                || (cursor == 0 && forall|k: int| 0 <= k < items@.len() ==> !(#[trigger] items@[k]).is_current)
        },
{
    match directory_switcher_cursor(&items) {
        None => SwitcherListing::NoPaths,
        Some(cursor) => SwitcherListing::Open { group_index, items, cursor },
    }
}

} // verus!
