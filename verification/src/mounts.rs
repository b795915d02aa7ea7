//! Reading the kernel's mount table into drive candidates.
use vstd::prelude::*;
use crate::text::{lemma_nonempty_parts_nonempty, lemma_text_lines_concat, chars_of, field_ranges, line_fields, line_ranges, ranges_view, ranges_within, str_eq, text_lines};
use vstd::string::*;
use crate::drives::{Drive, DriveView, drives_view};
use vstd::utf8::*;

verus! {

/// Filesystem types that are kernel bookkeeping rather than storage.
pub open spec fn is_pseudo_filesystem(t: Seq<char>) -> bool {
    ||| t == "autofs"@
    ||| t == "binfmt_misc"@
    ||| t == "bpf"@
    ||| t == "cgroup"@
    ||| t == "cgroup2"@
    ||| t == "configfs"@
    ||| t == "debugfs"@
    ||| t == "devpts"@
    ||| t == "devtmpfs"@
    ||| t == "efivarfs"@
    ||| t == "fusectl"@
    ||| t == "hugetlbfs"@
    ||| t == "mqueue"@
    ||| t == "nsfs"@
    ||| t == "overlay"@
    ||| t == "proc"@
    ||| t == "pstore"@
    ||| t == "ramfs"@
    ||| t == "rpc_pipefs"@
    ||| t == "securityfs"@
    ||| t == "squashfs"@
    ||| t == "sysfs"@
    ||| t == "tmpfs"@
    ||| t == "tracefs"@
}

/// A filesystem type names storage worth offering as a drive.
pub open spec fn is_storage_type(t: Seq<char>) -> bool {
    t.len() > 0 && !is_pseudo_filesystem(t)
}

/// True when `fs_type` names storage worth offering as a drive: it is
/// non-empty and not one of the kernel's bookkeeping filesystems.
pub fn is_storage_filesystem(fs_type: &str) -> (r: bool)
    ensures
        r == is_storage_type(fs_type@),
{
    if fs_type.is_empty() {
        return false;
    }
    let pseudo = str_eq(fs_type, "autofs") || str_eq(fs_type, "binfmt_misc")
        || str_eq(fs_type, "bpf") || str_eq(fs_type, "cgroup")
        || str_eq(fs_type, "cgroup2") || str_eq(fs_type, "configfs")
        || str_eq(fs_type, "debugfs") || str_eq(fs_type, "devpts")
        || str_eq(fs_type, "devtmpfs") || str_eq(fs_type, "efivarfs")
        || str_eq(fs_type, "fusectl") || str_eq(fs_type, "hugetlbfs")
        || str_eq(fs_type, "mqueue") || str_eq(fs_type, "nsfs")
        || str_eq(fs_type, "overlay") || str_eq(fs_type, "proc")
        || str_eq(fs_type, "pstore") || str_eq(fs_type, "ramfs")
        || str_eq(fs_type, "rpc_pipefs") || str_eq(fs_type, "securityfs")
        || str_eq(fs_type, "squashfs") || str_eq(fs_type, "sysfs")
        || str_eq(fs_type, "tmpfs") || str_eq(fs_type, "tracefs");
    !pseudo
}

/// Which filesystem types are offered as drives: every non-empty type except
/// the kernel's bookkeeping filesystems listed here (so `ext4`, `exfat`,
/// `vfat`, `ntfs`, `btrfs` and any type a kernel adds later are storage,
/// while `sysfs`, `proc`, `tmpfs` and the like never are).
pub proof fn lemma_storage_types(t: Seq<char>)
    ensures
        is_storage_type(t) <==> t.len() > 0 && !set![
            "autofs"@,
            "binfmt_misc"@,
            "bpf"@,
            "cgroup"@,
            "cgroup2"@,
            "configfs"@,
            "debugfs"@,
            "devpts"@,
            "devtmpfs"@,
            "efivarfs"@,
            "fusectl"@,
            "hugetlbfs"@,
            "mqueue"@,
            "nsfs"@,
            "overlay"@,
            "proc"@,
            "pstore"@,
            "ramfs"@,
            "rpc_pipefs"@,
            "securityfs"@,
            "squashfs"@,
            "sysfs"@,
            "tmpfs"@,
            "tracefs"@,
        ].contains(t),
{
}


/// An ASCII octal digit.
pub open spec fn is_octal_digit(b: u8) -> bool {
    0x30 <= b <= 0x37
}

/// The value of three octal digits, most significant first.
pub open spec fn octal_triple_value(s: Seq<u8>) -> int {
    64 * (s[0] - 0x30) + 8 * (s[1] - 0x30) + (s[2] - 0x30)
}

/// The byte an octal numeral names: exactly three octal digits whose value
/// fits in a byte.
pub open spec fn octal_value(s: Seq<u8>) -> Option<u8> {
    if s.len() == 3 && is_octal_digit(s[0]) && is_octal_digit(s[1]) && is_octal_digit(s[2])
        && octal_triple_value(s) <= 255 {
        Some(octal_triple_value(s) as u8)
    } else {
        None
    }
}

/// Parse exactly three octal digits into one byte.
pub fn octal_byte(digits: &[u8]) -> (r: Option<u8>)
    ensures
        r == octal_value(digits@),
{
    if digits.len() != 3 {
        return None;
    }
    let (a, b, c) = (digits[0], digits[1], digits[2]);
    if a < 0x30 || a > 0x37 || b < 0x30 || b > 0x37 || c < 0x30 || c > 0x37 {
        return None;
    }
    let value: u32 = 64 * (a - 0x30) as u32 + 8 * (b - 0x30) as u32 + (c - 0x30) as u32;
    if value > 255 {
        return None;
    }
    Some(value as u8)
}

/// Decode the `\ooo` escapes of a mount-table field, byte by byte: a
/// backslash followed by at least three more bytes whose first three form an
/// octal numeral stands for that byte; every other byte stands for itself.
pub open spec fn unescape_bytes(b: Seq<u8>) -> Seq<u8>
    decreases b.len(),
{
    if b.len() == 0 {
        Seq::empty()
    } else if b[0] == 0x5C && b.len() > 3 && octal_value(b.subrange(1, 4)) is Some {
        seq![octal_value(b.subrange(1, 4))->0] + unescape_bytes(b.skip(4))
    } else {
        seq![b[0]] + unescape_bytes(b.skip(1))
    }
}

/// What `String::from_utf8_lossy` makes of a byte sequence.
pub uninterp spec fn lossy_utf8(bytes: Seq<u8>) -> Seq<char>;

/// Calls `String::from_utf8_lossy`. Trusted: the result is the named
/// decoding of the bytes; valid UTF-8 decodes to the characters it encodes
/// (the function borrows such input unchanged); and each maximal ill-formed
/// subpart of invalid input becomes one U+FFFD, so a non-empty input never
/// yields an empty string, and no input yields more characters than it has
/// bytes (each character stands for at least one byte). What invalid input
/// yields is otherwise left to the name; in particular nothing here bounds
/// the UTF-8 length of that result.
#[verifier::external_body]
fn string_from_utf8_lossy(bytes: &[u8]) -> (s: String)
    ensures
        s@ == lossy_utf8(bytes@),
        valid_utf8(bytes@) ==> s@ == decode_utf8(bytes@),
        bytes@.len() > 0 ==> s@.len() > 0,
        s@.len() <= bytes@.len(),
{
    String::from_utf8_lossy(bytes).into_owned()
}

proof fn lemma_encode_without_backslash(s: Seq<char>)
    requires
        forall|i: int| 0 <= i < s.len() ==> s[i] != '\\',
    ensures
        forall|j: int| 0 <= j < encode_utf8(s).len() ==> #[trigger] encode_utf8(s)[j] != 0x5C,
    decreases s.len(),
{
    if s.len() > 0 {
        lemma_encode_without_backslash(s.drop_first());
        let v = s[0] as u32;
        assert(s[0] != '\\');
        if v == 0x5C {
            char_u32_cast(s[0], v);
            char_u32_cast('\\', v);
        }
        assert(v != 0x5C);
        assert(forall|x: u8| #![auto] (0x80u8 | x) != 0x5Cu8 && (0xC0u8 | x) != 0x5Cu8 && (0xE0u8 | x) != 0x5Cu8
            && (0xF0u8 | x) != 0x5Cu8) by (bit_vector);
        assert(v <= 0x7F && v != 0x5C ==> ((v & 0x7F) as u8) != 0x5Cu8) by (bit_vector);
        let head = encode_scalar(v);
        let tail = encode_utf8(s.drop_first());
        assert(encode_utf8(s) == head + tail);
        assert forall|j: int| 0 <= j < encode_utf8(s).len() implies #[trigger] encode_utf8(s)[j] != 0x5C by {
            if j >= head.len() {
                assert(encode_utf8(s)[j] == tail[j - head.len()]);
            }
        }
    }
}

proof fn lemma_unescape_without_backslash(b: Seq<u8>)
    requires
        forall|j: int| 0 <= j < b.len() ==> b[j] != 0x5C,
    ensures
        unescape_bytes(b) == b,
    decreases b.len(),
{
    if b.len() > 0 {
        lemma_unescape_without_backslash(b.skip(1));
        assert(b =~= seq![b[0]] + b.skip(1));
    }
}

proof fn lemma_unescape_shrinks(b: Seq<u8>)
    ensures
        unescape_bytes(b).len() <= b.len(),
    decreases b.len(),
{
    if b.len() > 0 {
        lemma_unescape_shrinks(b.skip(1));
        if b.len() > 3 {
            lemma_unescape_shrinks(b.skip(4));
        }
    }
}

/// The bytes a mount-table field names once its octal escapes are decoded.
pub open spec fn mount_field_bytes(field: Seq<char>) -> Seq<u8> {
    unescape_bytes(encode_utf8(field))
}

/// The text a mount-table field names once its octal escapes are decoded:
/// the characters the decoded bytes encode when they are valid UTF-8, else
/// their lossy decoding.
pub open spec fn mount_field_text(field: Seq<char>) -> Seq<char> {
    let u = mount_field_bytes(field);
    if valid_utf8(u) {
        decode_utf8(u)
    } else {
        lossy_utf8(u)
    }
}

/// A field without a backslash names itself.
pub proof fn lemma_mount_field_plain(field: Seq<char>)
    requires
        forall|i: int| 0 <= i < field.len() ==> field[i] != '\\',
    ensures
        mount_field_bytes(field) == encode_utf8(field),
        mount_field_text(field) == field,
{
    lemma_encode_without_backslash(field);
    lemma_unescape_without_backslash(encode_utf8(field));
    encode_utf8_valid_utf8(field);
    encode_utf8_decode_utf8(field);
}

/// How the kernel writes one character of a mount point: space, tab,
/// newline and backslash as the escapes `\040`, `\011`, `\012` and `\134`,
/// every other character as itself.
pub open spec fn kernel_escape_char(c: char) -> Seq<char> {
    if c == ' ' {
        seq!['\\', '0', '4', '0']
    } else if c == '\t' {
        seq!['\\', '0', '1', '1']
    } else if c == '\n' {
        seq!['\\', '0', '1', '2']
    } else if c == '\\' {
        seq!['\\', '1', '3', '4']
    } else {
        seq![c]
    }
}

/// How the kernel writes a mount point in its mount table.
pub open spec fn kernel_escape(s: Seq<char>) -> Seq<char>
    decreases s.len(),
{
    if s.len() == 0 {
        Seq::empty()
    } else {
        kernel_escape_char(s[0]) + kernel_escape(s.drop_first())
    }
}

proof fn lemma_encode_concat(a: Seq<char>, b: Seq<char>)
    ensures
        encode_utf8(a + b) == encode_utf8(a) + encode_utf8(b),
    decreases a.len(),
{
    if a.len() == 0 {
        assert(a + b =~= b);
        assert(encode_utf8(a) =~= Seq::<u8>::empty());
        assert(encode_utf8(a) + encode_utf8(b) =~= encode_utf8(b));
    } else {
        lemma_encode_concat(a.drop_first(), b);
        assert((a + b).drop_first() =~= a.drop_first() + b);
        assert((a + b)[0] == a[0]);
        assert(encode_utf8(a + b) =~= encode_utf8(a) + encode_utf8(b));
    }
}

proof fn lemma_unescape_plain_prefix(x: Seq<u8>, y: Seq<u8>)
    requires
        forall|j: int| 0 <= j < x.len() ==> x[j] != 0x5C,
    ensures
        unescape_bytes(x + y) == x + unescape_bytes(y),
    decreases x.len(),
{
    if x.len() == 0 {
        assert(x + y =~= y);
        assert(x + unescape_bytes(y) =~= unescape_bytes(y));
    } else {
        lemma_unescape_plain_prefix(x.skip(1), y);
        assert((x + y).skip(1) =~= x.skip(1) + y);
        assert((x + y)[0] == x[0]);
        assert(x + unescape_bytes(y) =~= seq![x[0]] + (x.skip(1) + unescape_bytes(y)));
    }
}

proof fn lemma_unescape_escape_prefix(e: Seq<u8>, y: Seq<u8>)
    requires
        e.len() == 4,
        e[0] == 0x5C,
        octal_value(e.subrange(1, 4)) is Some,
    ensures
        unescape_bytes(e + y) == seq![octal_value(e.subrange(1, 4))->0] + unescape_bytes(y),
{
    assert((e + y).subrange(1, 4) =~= e.subrange(1, 4));
    assert((e + y).skip(4) =~= y);
    assert((e + y)[0] == e[0]);
}

/// The escapes of one character decode back to its UTF-8 bytes, and the rest
/// is decoded after them.
proof fn lemma_unescape_escaped_char(c: char, y: Seq<u8>)
    ensures
        unescape_bytes(encode_utf8(kernel_escape_char(c)) + y) == encode_utf8(seq![c]) + unescape_bytes(y),
{
    let e = kernel_escape_char(c);
    if c == ' ' || c == '\t' || c == '\n' || c == '\\' {
        assert(is_ascii_chars(e));
        is_ascii_chars_encode_utf8(e);
        assert(is_ascii_chars(seq![c]));
        is_ascii_chars_encode_utf8(seq![c]);
        let b = encode_utf8(e);
        assert(b[0] == 0x5C);
        let d = b.subrange(1, 4);
        assert(d[0] == b[1] && d[1] == b[2] && d[2] == b[3]);
        assert(octal_value(d) == Some(c as u8));
        lemma_unescape_escape_prefix(b, y);
        assert(seq![c as u8] =~= encode_utf8(seq![c]));
    } else {
        assert(e == seq![c]);
        lemma_encode_without_backslash(e);
        lemma_unescape_plain_prefix(encode_utf8(e), y);
    }
}

/// Decoding undoes the kernel's escaping: a mount point written the way the
/// kernel writes it decodes to its own bytes and text.
pub proof fn lemma_escape_round_trip(s: Seq<char>)
    ensures
        mount_field_bytes(kernel_escape(s)) == encode_utf8(s),
        mount_field_text(kernel_escape(s)) == s,
    decreases s.len(),
{
    if s.len() == 0 {
        assert(kernel_escape(s) =~= Seq::<char>::empty());
        assert(encode_utf8(Seq::<char>::empty()) =~= Seq::<u8>::empty());
        assert(unescape_bytes(Seq::<u8>::empty()) =~= Seq::<u8>::empty());
        assert(s =~= Seq::<char>::empty());
    } else {
        let rest = s.drop_first();
        lemma_escape_round_trip(rest);
        let e = kernel_escape_char(s[0]);
        lemma_encode_concat(e, kernel_escape(rest));
        lemma_unescape_escaped_char(s[0], encode_utf8(kernel_escape(rest)));
        lemma_encode_concat(seq![s[0]], rest);
        assert(seq![s[0]] + rest =~= s);
    }
    encode_utf8_valid_utf8(s);
    encode_utf8_decode_utf8(s);
}

/// Decode the octal escapes `/proc/mounts` uses for space, tab, newline and
/// backslash in paths. Escapes are decoded byte-wise, and the resulting bytes
/// are read back as UTF-8 (lossily, should they not be valid). The result
/// never has more characters than the field has bytes.
pub fn unescape_mount_field(field: &str) -> (r: String)
    ensures
        r@ == mount_field_text(field@),
        valid_utf8(mount_field_bytes(field@)) ==> encode_utf8(r@) == mount_field_bytes(field@),
        valid_utf8(mount_field_bytes(field@)) ==> encode_utf8(r@).len() <= encode_utf8(field@).len(),
        r@.len() <= encode_utf8(field@).len(),
        field@.len() > 0 ==> r@.len() > 0,
        (forall|i: int| 0 <= i < field@.len() ==> field@[i] != '\\') ==> r@ == field@,
{
    let bytes = field.as_bytes();
    let mut out: Vec<u8> = Vec::with_capacity(bytes.len());
    let mut i: usize = 0;
    assert(bytes@.skip(0) =~= bytes@);
    while i < bytes.len()
        invariant
            i <= bytes@.len(),
            out@ + unescape_bytes(bytes@.skip(i as int)) == unescape_bytes(bytes@),
            i > 0 ==> out@.len() > 0,
        decreases bytes@.len() - i,
    {
        let ghost rest = bytes@.skip(i as int);
        if bytes[i] == 0x5C && bytes.len() - i > 3 {
            let code = octal_byte(&bytes[i + 1..i + 4]);
            assert(bytes@.subrange(i + 1, i + 4) =~= rest.subrange(1, 4));
            if let Some(c) = code {
                assert(rest.skip(4) =~= bytes@.skip(i + 4));
                out.push(c);
                assert(out@ + unescape_bytes(bytes@.skip(i + 4)) =~= unescape_bytes(bytes@));
                i = i + 4;
                continue;
            }
        }
        assert(rest.skip(1) =~= bytes@.skip(i + 1));
        out.push(bytes[i]);
        assert(out@ + unescape_bytes(bytes@.skip(i + 1)) =~= unescape_bytes(bytes@));
        i = i + 1;
    }
    assert(bytes@.skip(i as int) =~= Seq::<u8>::empty());
    assert(out@ =~= unescape_bytes(bytes@));
    proof {
        if field@.len() > 0 {
            vstd::utf8::encode_utf8_first_scalar(field@);
        }
        if forall|i: int| 0 <= i < field@.len() ==> field@[i] != '\\' {
            lemma_mount_field_plain(field@);
        }
        lemma_unescape_shrinks(bytes@);
        if valid_utf8(out@) {
            decode_utf8_encode_utf8(out@);
        }
    }
    string_from_utf8_lossy(out.as_slice())
}


/// The entry one mount-table line contributes: its second field (the mount
/// point, escapes decoded) and third field (the filesystem type), or nothing
/// when the line has fewer than three fields.
pub open spec fn mount_line_entry(line: Seq<char>) -> Seq<(Seq<char>, Seq<char>)> {
    let f = line_fields(line);
    if f.len() >= 3 {
        seq![(mount_field_text(f[1]), f[2])]
    } else {
        Seq::empty()
    }
}

/// The entries of a sequence of lines, in order.
pub open spec fn mount_entries_of_lines(lines: Seq<Seq<char>>) -> Seq<(Seq<char>, Seq<char>)>
    decreases lines.len(),
{
    if lines.len() == 0 {
        Seq::empty()
    } else {
        mount_entries_of_lines(lines.drop_last()) + mount_line_entry(lines.last())
    }
}

/// The `(mount point, filesystem type)` pairs of a mount table. Lines are
/// its pieces between `\n`; a `\r` before a line end is whitespace and an
/// empty last piece has no field, so the fields are those that `str::lines`
/// followed by `split_whitespace` yields.
pub open spec fn mount_entries(contents: Seq<char>) -> Seq<(Seq<char>, Seq<char>)> {
    mount_entries_of_lines(text_lines(contents))
}

proof fn lemma_entries_of_lines_concat(l1: Seq<Seq<char>>, l2: Seq<Seq<char>>)
    ensures
        mount_entries_of_lines(l1 + l2) == mount_entries_of_lines(l1) + mount_entries_of_lines(l2),
    decreases l2.len(),
{
    if l2.len() == 0 {
        assert(l1 + l2 =~= l1);
        assert(mount_entries_of_lines(l1) + mount_entries_of_lines(l2) =~= mount_entries_of_lines(l1));
    } else {
        lemma_entries_of_lines_concat(l1, l2.drop_last());
        assert((l1 + l2).drop_last() =~= l1 + l2.drop_last());
        assert((l1 + l2).last() == l2.last());
        assert(mount_entries_of_lines(l1 + l2) =~= mount_entries_of_lines(l1) + mount_entries_of_lines(l2));
    }
}

/// A mount table is read line by line: the entries of two tables joined by a
/// line break are the entries of the first followed by those of the second.
pub proof fn lemma_mount_entries_concat(a: Seq<char>, b: Seq<char>)
    ensures
        mount_entries(a.push('\n') + b) == mount_entries(a) + mount_entries(b),
{
    lemma_text_lines_concat(a, b);
    lemma_entries_of_lines_concat(text_lines(a), text_lines(b));
}

/// The character views of string pairs.
pub open spec fn pairs_view(p: Seq<(String, String)>) -> Seq<(Seq<char>, Seq<char>)> {
    Seq::new(p.len(), |i: int| (p[i].0@, p[i].1@))
}

/// Split a mount table into `(mount point, filesystem type)` pairs: for each
/// line with at least three whitespace-separated fields, the second field
/// with its octal escapes decoded and the third field.
pub fn parse_mounts(contents: &str) -> (r: Vec<(String, String)>)
    ensures
        pairs_view(r@) == mount_entries(contents@),
        forall|k: int| 0 <= k < r@.len() ==> (#[trigger] r@[k]).0@.len() > 0,
{
    let chars = chars_of(contents);
    let lines = line_ranges(&chars);
    let ghost lv = ranges_view(chars@, lines@);
    let mut out: Vec<(String, String)> = Vec::new();
    let mut li: usize = 0;
    assert(lv.take(0) =~= Seq::<Seq<char>>::empty());
    assert(pairs_view(out@) =~= Seq::<(Seq<char>, Seq<char>)>::empty());
    while li < lines.len()
        invariant
            chars@ == contents@,
            lv == ranges_view(chars@, lines@),
            lv == text_lines(contents@),
            ranges_within(lines@, 0, chars@.len() as int),
            li <= lines@.len(),
            pairs_view(out@) == mount_entries_of_lines(lv.take(li as int)),
            forall|k: int| 0 <= k < out@.len() ==> (#[trigger] out@[k]).0@.len() > 0,
        decreases lines@.len() - li,
    {
        let (lo, hi) = lines[li];
        assert(lines@[li as int] == (lo, hi));
        let fields = field_ranges(&chars, lo, hi);
        let ghost fv = ranges_view(chars@, fields@);
        assert(lv[li as int] == chars@.subrange(lo as int, hi as int));
        assert(lv.take(li + 1).drop_last() =~= lv.take(li as int));
        assert(lv.take(li + 1).last() == lv[li as int]);
        let ghost old_view = pairs_view(out@);
        if fields.len() >= 3 {
            let (a, b) = fields[1];
            let (c, d) = fields[2];
            assert(fields@[1] == (a, b));
            assert(fields@[2] == (c, d));
            let mount_point = contents.substring_char(a, b);
            let fs_type = contents.substring_char(c, d);
            assert(mount_point@ == fv[1]);
            proof {
                lemma_nonempty_parts_nonempty(crate::text::whitespace_split(chars@.subrange(lo as int, hi as int)));
            }
            assert(fv[1].len() > 0);
            assert(fs_type@ == fv[2]);
            let entry = (unescape_mount_field(mount_point), fs_type.to_owned());
            out.push(entry);
            assert(pairs_view(out@) =~= old_view + mount_line_entry(lv[li as int]));
        } else {
            assert(mount_line_entry(lv[li as int]) =~= Seq::<(Seq<char>, Seq<char>)>::empty());
            assert(pairs_view(out@) =~= old_view + mount_line_entry(lv[li as int]));
        }
        li = li + 1;
    }
    assert(lv.take(li as int) =~= lv);
    out
}


/// The drives a list of mount entries yields, given for each entry whether
/// its mount point is a live directory: the storage entries whose mount point
/// is live, in order, labelled with their filesystem type.
pub open spec fn live_storage_drives(
    entries: Seq<(Seq<char>, Seq<char>)>,
    live: Seq<bool>,
) -> Seq<DriveView>
    decreases entries.len(),
{
    if entries.len() == 0 {
        Seq::empty()
    } else {
        let e = entries.last();
        let rest = live_storage_drives(entries.drop_last(), live);
        if is_storage_type(e.1) && live[entries.len() - 1] {
            rest.push(DriveView { path: e.0, label: Some(e.1) })
        } else {
            rest
        }
    }
}

proof fn lemma_live_storage_drives_take(entries: Seq<(Seq<char>, Seq<char>)>, live: Seq<bool>, k: int)
    requires
        0 <= k < entries.len(),
    ensures
        live_storage_drives(entries.take(k + 1), live) == (if is_storage_type(entries[k].1) && live[k] {
            live_storage_drives(entries.take(k), live).push(
                DriveView { path: entries[k].0, label: Some(entries[k].1) },
            )
        } else {
            live_storage_drives(entries.take(k), live)
        }),
{
    assert(entries.take(k + 1).drop_last() =~= entries.take(k));
}

/// Every drive of the selection comes from a storage entry.
pub proof fn lemma_live_storage_drives_members(entries: Seq<(Seq<char>, Seq<char>)>, live: Seq<bool>)
    ensures
        forall|k: int|
            #![trigger live_storage_drives(entries, live)[k]]
            0 <= k < live_storage_drives(entries, live).len() ==> exists|i: int|
                0 <= i < entries.len() && live_storage_drives(entries, live)[k] == (DriveView {
                    path: #[trigger] entries[i].0,
                    label: Some(entries[i].1),
                }) && is_storage_type(entries[i].1),
    decreases entries.len(),
{
    if entries.len() > 0 {
        let d = entries.drop_last();
        lemma_live_storage_drives_members(d, live);
        let res = live_storage_drives(entries, live);
        let prev = live_storage_drives(d, live);
        assert forall|k: int| 0 <= k < res.len() implies exists|i: int|
            0 <= i < entries.len() && #[trigger] res[k] == (DriveView {
                path: #[trigger] entries[i].0,
                label: Some(entries[i].1),
            }) && is_storage_type(entries[i].1) by {
            if k < prev.len() {
                assert(res[k] == prev[k]);
                let i = choose|i: int| 0 <= i < d.len() && prev[k] == (DriveView { path: #[trigger] d[i].0, label: Some(d[i].1) }) && is_storage_type(d[i].1);
                assert(entries[i] == d[i]);
            } else {
                let i = entries.len() - 1;
                assert(entries[i] == entries.last());
            }
        }
    }
}

/// Keep the storage entries whose mount point is live, in order, as drives
/// labelled with their filesystem type.
pub fn drives_from_entries(entries: Vec<(String, String)>, live: &Vec<bool>) -> (r: Vec<Drive>)
    requires
        live@.len() == entries@.len(),
    ensures
        drives_view(r@) == live_storage_drives(pairs_view(entries@), live@),
{
    let ghost ev = pairs_view(entries@);
    let mut out: Vec<Drive> = Vec::new();
    let mut i: usize = 0;
    let n = entries.len();
    assert(ev.take(0) =~= Seq::<(Seq<char>, Seq<char>)>::empty());
    assert(drives_view(out@) =~= Seq::<DriveView>::empty());
    for (mount_point, fs_type) in it: entries
        invariant
            n == ev.len(),
            ev == pairs_view(entries@),
            live@.len() == n,
            i == it.index(),
            it.seq() == entries@,
            drives_view(out@) == live_storage_drives(ev.take(i as int), live@),
    {
        proof {
            lemma_live_storage_drives_take(ev, live@, i as int);
        }
        assert(ev.take(i + 1).take(i as int) =~= ev.take(i as int));
        assert(ev[i as int] == (mount_point@, fs_type@));
        if is_storage_filesystem(fs_type.as_str()) && live[i] {
            let ghost old_view = drives_view(out@);
            out.push(Drive { path: mount_point, label: Some(fs_type) });
            assert(drives_view(out@) =~= old_view.push(DriveView { path: ev[i as int].0, label: Some(ev[i as int].1) }));
        }
        i = i + 1;
    }
    assert(ev.take(n as int) =~= ev);
    out
}

/// Probing `path` with `is_live` may answer `answer`: some string naming
/// `path` was handed to the probe and it returned `answer`.
pub open spec fn probe_answers<F: Fn(&str) -> bool>(is_live: F, path: Seq<char>, answer: bool) -> bool {
    exists|p: &str| p@ == path && #[trigger] call_ensures(is_live, (p,), answer)
}

/// Each storage entry's liveness is an answer of the probe for that entry's
/// mount point.
pub open spec fn liveness_probed<F: Fn(&str) -> bool>(
    is_live: F,
    entries: Seq<(Seq<char>, Seq<char>)>,
    live: Seq<bool>,
) -> bool {
    &&& live.len() == entries.len()
    &&& forall|k: int|
        0 <= k < entries.len() && is_storage_type(entries[k].1) ==> probe_answers(
            is_live,
            (#[trigger] entries[k]).0,
            live[k],
        )
}

/// Keep the storage entries of a mount table whose mount point is still a
/// live directory, as `is_live` judges each mount point. The probe is asked
/// about the mount point of every storage entry (and of no other entry), and
/// the result is the storage entries it judged live, in order.
pub fn mounts_to_drives(contents: &str, is_live: impl Fn(&str) -> bool) -> (r: Vec<Drive>)
    requires
        forall|p: &str| #[trigger] call_requires(is_live, (p,)),
    ensures
        exists|live: Seq<bool>|
            liveness_probed(is_live, mount_entries(contents@), live)
            && drives_view(r@) == #[trigger] live_storage_drives(mount_entries(contents@), live),
        forall|k: int| 0 <= k < r@.len() ==> {
            &&& (#[trigger] r@[k])@.path.len() > 0
            &&& r@[k]@.label is Some
            &&& is_storage_type(r@[k]@.label->0)
        },
{
    let entries = parse_mounts(contents);
    let ghost ev = pairs_view(entries@);
    let mut live: Vec<bool> = Vec::new();
    let mut i: usize = 0;
    while i < entries.len()
        invariant
            i <= entries@.len(),
            live@.len() == i,
            ev == pairs_view(entries@),
            forall|p: &str| #[trigger] call_requires(is_live, (p,)),
            forall|k: int|
                0 <= k < i && is_storage_type(ev[k].1) ==> probe_answers(is_live, (#[trigger] ev[k]).0, live@[k]),
        decreases entries@.len() - i,
    {
        let storage = is_storage_filesystem(entries[i].1.as_str());
        let keep = if storage {
            let mount_point = entries[i].0.as_str();
            let answer = is_live(mount_point);
            assert(mount_point@ == ev[i as int].0);
            assert(probe_answers(is_live, ev[i as int].0, answer));
            answer
        } else {
            false
        };
        live.push(keep);
        i = i + 1;
    }
    assert(liveness_probed(is_live, ev, live@));
    let ghost lv = live@;
    let ghost entries_copy = entries@;
    let r = drives_from_entries(entries, &live);
    assert(live_storage_drives(mount_entries(contents@), lv) == drives_view(r@));
    proof {
        let es = mount_entries(contents@);
        lemma_live_storage_drives_members(es, lv);
        assert forall|k: int| 0 <= k < r@.len() implies {
            &&& (#[trigger] r@[k])@.path.len() > 0
            &&& r@[k]@.label is Some
            &&& is_storage_type(r@[k]@.label->0)
        } by {
            assert(drives_view(r@)[k] == r@[k]@);
            let i = choose|i: int| 0 <= i < es.len() && live_storage_drives(es, lv)[k] == (DriveView { path: #[trigger] es[i].0, label: Some(es[i].1) }) && is_storage_type(es[i].1);
            assert(es[i] == pairs_view(entries_copy)[i]);
        }
    }
    r
}

} // verus!
