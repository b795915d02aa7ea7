//! Text helpers shared by the mount-table parser and the path order.
use vstd::prelude::*;
use vstd::utf8::*;

verus! {

broadcast use vstd::utf8::group_utf8_lib;

/// Equality of two strings, decided on their UTF-8 bytes.
pub fn str_eq(a: &str, b: &str) -> (r: bool)
    ensures
        r == (a@ == b@),
{
    let x = a.as_bytes();
    let y = b.as_bytes();
    proof {
        encode_utf8_decode_utf8(a@);
        encode_utf8_decode_utf8(b@);
    }
    if x.len() != y.len() {
        return false;
    }
    let mut i: usize = 0;
    while i < x.len()
        invariant
            x@ == encode_utf8(a@),
            y@ == encode_utf8(b@),
            x@.len() == y@.len(),
            i <= x@.len(),
            forall|k: int| 0 <= k < i ==> x@[k] == y@[k],
        decreases x@.len() - i,
    {
        if x[i] != y[i] {
            return false;
        }
        i = i + 1;
    }
    assert(x@ =~= y@);
    true
}


/// The pieces of `s` between separators, in order, empty pieces included
/// (`k` separators make `k + 1` pieces).
pub open spec fn split_where<A>(s: Seq<A>, is_sep: spec_fn(A) -> bool) -> Seq<Seq<A>>
    decreases s.len(),
{
    if s.len() == 0 {
        seq![Seq::empty()]
    } else {
        let r = split_where(s.drop_last(), is_sep);
        if is_sep(s.last()) {
            r.push(Seq::empty())
        } else {
            r.update(r.len() - 1, r.last().push(s.last()))
        }
    }
}

/// The non-empty pieces, in order.
pub open spec fn nonempty_parts<A>(p: Seq<Seq<A>>) -> Seq<Seq<A>>
    decreases p.len(),
{
    if p.len() == 0 {
        Seq::empty()
    } else if p.last().len() > 0 {
        nonempty_parts(p.drop_last()).push(p.last())
    } else {
        nonempty_parts(p.drop_last())
    }
}

pub proof fn lemma_nonempty_parts_nonempty<A>(p: Seq<Seq<A>>)
    ensures
        forall|k: int| 0 <= k < nonempty_parts(p).len() ==> (#[trigger] nonempty_parts(p)[k]).len() > 0,
    decreases p.len(),
{
    if p.len() > 0 {
        lemma_nonempty_parts_nonempty(p.drop_last());
        let prev = nonempty_parts(p.drop_last());
        assert forall|k: int| 0 <= k < nonempty_parts(p).len() implies (#[trigger] nonempty_parts(p)[k]).len() > 0 by {
            if k < prev.len() {
                assert(nonempty_parts(p)[k] == prev[k]);
            }
        }
    }
}

/// The characters `char::is_whitespace` accepts: those with the Unicode
/// `White_Space` property.
pub open spec fn is_unicode_whitespace(c: char) -> bool {
    let u = c as u32;
    ||| 0x09 <= u <= 0x0D
    ||| u == 0x20
    ||| u == 0x85
    ||| u == 0xA0
    ||| u == 0x1680
    ||| 0x2000 <= u <= 0x200A
    ||| u == 0x2028
    ||| u == 0x2029
    ||| u == 0x202F
    ||| u == 0x205F
    ||| u == 0x3000
}

/// Whether `c` is Unicode whitespace.
pub fn is_whitespace_char(c: char) -> (r: bool)
    ensures
        r == is_unicode_whitespace(c),
{
    let u = c as u32;
    (0x09 <= u && u <= 0x0D) || u == 0x20 || u == 0x85 || u == 0xA0 || u == 0x1680
        || (0x2000 <= u && u <= 0x200A) || u == 0x2028 || u == 0x2029 || u == 0x202F
        || u == 0x205F || u == 0x3000
}

/// The lines of a text: its pieces between `\n` characters.
pub open spec fn text_lines(s: Seq<char>) -> Seq<Seq<char>> {
    split_where(s, |c: char| c == '\n')
}

/// The pieces of a line between whitespace characters.
pub open spec fn whitespace_split(s: Seq<char>) -> Seq<Seq<char>> {
    split_where(s, |c: char| is_unicode_whitespace(c))
}

/// The whitespace-separated fields of a line, as `str::split_whitespace`
/// yields them.
pub open spec fn line_fields(s: Seq<char>) -> Seq<Seq<char>> {
    nonempty_parts(whitespace_split(s))
}

proof fn lemma_text_lines_push(s: Seq<char>, x: char)
    ensures
        text_lines(s.push(x)) == (if x == '\n' {
            text_lines(s).push(Seq::empty())
        } else {
            text_lines(s).update(text_lines(s).len() - 1, text_lines(s).last().push(x))
        }),
{
    assert(s.push(x).drop_last() =~= s);
}

proof fn lemma_text_lines_nonempty(s: Seq<char>)
    ensures
        text_lines(s).len() >= 1,
    decreases s.len(),
{
    if s.len() > 0 {
        lemma_text_lines_nonempty(s.drop_last());
        lemma_text_lines_push(s.drop_last(), s.last());
        assert(s.drop_last().push(s.last()) =~= s);
    }
}

/// The lines of two texts joined by a line break are the lines of the first
/// followed by those of the second.
pub proof fn lemma_text_lines_concat(a: Seq<char>, b: Seq<char>)
    ensures
        text_lines(a.push('\n') + b) == text_lines(a) + text_lines(b),
    decreases b.len(),
{
    let head = a.push('\n');
    if b.len() == 0 {
        assert(head + b =~= head);
        lemma_text_lines_push(a, '\n');
        assert(text_lines(b) =~= seq![Seq::<char>::empty()]);
        assert(text_lines(a).push(Seq::empty()) =~= text_lines(a) + text_lines(b));
    } else {
        let d = b.drop_last();
        let x = b.last();
        lemma_text_lines_concat(a, d);
        assert(head + b =~= (head + d).push(x));
        assert(b =~= d.push(x));
        lemma_text_lines_push(head + d, x);
        lemma_text_lines_push(d, x);
        lemma_text_lines_nonempty(d);
        let l = text_lines(a);
        let r = text_lines(d);
        if x == '\n' {
            assert((l + r).push(Seq::empty()) =~= l + r.push(Seq::empty()));
        } else {
            assert((l + r).update((l + r).len() - 1, (l + r).last().push(x)) =~= l + r.update(
                r.len() - 1,
                r.last().push(x),
            ));
        }
    }
}

proof fn lemma_whitespace_split_push(s: Seq<char>, x: char)
    ensures
        whitespace_split(s.push(x)) == (if is_unicode_whitespace(x) {
            whitespace_split(s).push(Seq::empty())
        } else {
            whitespace_split(s).update(
                whitespace_split(s).len() - 1,
                whitespace_split(s).last().push(x),
            )
        }),
{
    assert(s.push(x).drop_last() =~= s);
}

/// The subsequences of `s` that the index ranges name.
pub open spec fn ranges_view<A>(s: Seq<A>, r: Seq<(usize, usize)>) -> Seq<Seq<A>> {
    Seq::new(r.len(), |k: int| s.subrange(r[k].0 as int, r[k].1 as int))
}

/// Every range lies within `lo..hi`.
pub open spec fn ranges_within(r: Seq<(usize, usize)>, lo: int, hi: int) -> bool {
    forall|k: int| 0 <= k < r.len() ==> lo <= (#[trigger] r[k]).0 <= r[k].1 <= hi
}

/// The characters of a string.
pub fn chars_of(s: &str) -> (v: Vec<char>)
    ensures
        v@ == s@,
{
    let mut v: Vec<char> = Vec::new();
    for c in it: s.chars()
        invariant
            v@ == it.seq().take(it.index() as int),
    {
        v.push(c);
        assert(v@ =~= it.seq().take(it.index() + 1));
    }
    assert(v@ =~= s@);
    v
}

/// Index ranges of the lines of `chars`.
pub fn line_ranges(chars: &Vec<char>) -> (r: Vec<(usize, usize)>)
    ensures
        ranges_view(chars@, r@) == text_lines(chars@),
        ranges_within(r@, 0, chars@.len() as int),
{
    let mut r: Vec<(usize, usize)> = Vec::new();
    let mut start: usize = 0;
    let mut i: usize = 0;
    assert(chars@.take(0) =~= Seq::<char>::empty());
    assert(ranges_view(chars@, r@).push(chars@.subrange(0, 0)) =~= text_lines(chars@.take(0)));
    while i < chars.len()
        invariant
            start <= i <= chars@.len(),
            ranges_within(r@, 0, i as int),
            ranges_view(chars@, r@).push(chars@.subrange(start as int, i as int))
                == text_lines(chars@.take(i as int)),
        decreases chars@.len() - i,
    {
        let ghost old_view = ranges_view(chars@, r@);
        assert(chars@.take(i + 1) =~= chars@.take(i as int).push(chars@[i as int]));
        proof {
            lemma_text_lines_push(chars@.take(i as int), chars@[i as int]);
        }
        if chars[i] == '\n' {
            r.push((start, i));
            assert(ranges_view(chars@, r@) =~= old_view.push(chars@.subrange(start as int, i as int)));
            start = i + 1;
            assert(chars@.subrange(start as int, i + 1) =~= Seq::<char>::empty());
            assert(ranges_view(chars@, r@).push(chars@.subrange(start as int, i + 1))
                =~= text_lines(chars@.take(i + 1)));
        } else {
            assert(chars@.subrange(start as int, i + 1) =~= chars@.subrange(start as int, i as int).push(chars@[i as int]));
            assert(ranges_view(chars@, r@).push(chars@.subrange(start as int, i + 1))
                =~= text_lines(chars@.take(i + 1)));
        }
        i = i + 1;
    }
    let ghost old_view = ranges_view(chars@, r@);
    r.push((start, i));
    assert(ranges_view(chars@, r@) =~= old_view.push(chars@.subrange(start as int, i as int)));
    assert(chars@.take(i as int) =~= chars@);
    r
}

/// Index ranges of the whitespace-separated fields of `chars[lo..hi]`.
pub fn field_ranges(chars: &Vec<char>, lo: usize, hi: usize) -> (r: Vec<(usize, usize)>)
    requires
        lo <= hi <= chars@.len(),
    ensures
        ranges_view(chars@, r@) == line_fields(chars@.subrange(lo as int, hi as int)),
        ranges_within(r@, lo as int, hi as int),
{
    let ghost line = chars@.subrange(lo as int, hi as int);
    let mut r: Vec<(usize, usize)> = Vec::new();
    let mut start: usize = lo;
    let mut i: usize = lo;
    let ghost mut done: Seq<Seq<char>> = Seq::empty();
    assert(line.take(0) =~= Seq::<char>::empty());
    assert(chars@.subrange(lo as int, lo as int) =~= Seq::<char>::empty());
    assert(done.push(chars@.subrange(lo as int, lo as int)) =~= whitespace_split(line.take(0)));
    while i < hi
        invariant
            lo <= start <= i <= hi <= chars@.len(),
            line == chars@.subrange(lo as int, hi as int),
            ranges_within(r@, lo as int, i as int),
            done.push(chars@.subrange(start as int, i as int)) == whitespace_split(line.take(i - lo)),
            ranges_view(chars@, r@) == nonempty_parts(done),
        decreases hi - i,
    {
        assert(line.take(i + 1 - lo) =~= line.take(i - lo).push(chars@[i as int]));
        proof {
            lemma_whitespace_split_push(line.take(i - lo), chars@[i as int]);
        }
        let c = chars[i];
        if is_whitespace_char(c) {
            let ghost piece = chars@.subrange(start as int, i as int);
            if start < i {
                let ghost old_view = ranges_view(chars@, r@);
                r.push((start, i));
                assert(ranges_view(chars@, r@) =~= old_view.push(piece));
            }
            assert(done.push(piece).drop_last() =~= done);
            proof {
                done = done.push(piece);
            }
            start = i + 1;
            assert(chars@.subrange(start as int, i + 1) =~= Seq::<char>::empty());
            assert(done.push(chars@.subrange(start as int, i + 1)) =~= whitespace_split(line.take(i + 1 - lo)));
        } else {
            assert(chars@.subrange(start as int, i + 1) =~= chars@.subrange(start as int, i as int).push(c));
            assert(done.push(chars@.subrange(start as int, i + 1)) =~= whitespace_split(line.take(i + 1 - lo)));
        }
        i = i + 1;
    }
    let ghost piece = chars@.subrange(start as int, i as int);
    if start < i {
        let ghost old_view = ranges_view(chars@, r@);
        r.push((start, i));
        assert(ranges_view(chars@, r@) =~= old_view.push(piece));
    }
    assert(done.push(piece).drop_last() =~= done);
    assert(line.take(i - lo) =~= line);
    r
}

/// Lexicographic comparison of bytes: -1, 0 or 1.
pub open spec fn bytes_order(a: Seq<u8>, b: Seq<u8>) -> int
    decreases a.len(),
{
    if a.len() == 0 {
        if b.len() == 0 { 0 } else { -1 }
    } else if b.len() == 0 {
        1
    } else if a[0] < b[0] {
        -1
    } else if a[0] > b[0] {
        1
    } else {
        bytes_order(a.skip(1), b.skip(1))
    }
}

pub proof fn lemma_bytes_order_props(a: Seq<u8>, b: Seq<u8>)
    ensures
        -1 <= bytes_order(a, b) <= 1,
        bytes_order(a, b) == -bytes_order(b, a),
        bytes_order(a, b) == 0 <==> a == b,
    decreases a.len(),
{
    if a.len() > 0 && b.len() > 0 {
        lemma_bytes_order_props(a.skip(1), b.skip(1));
        if a[0] == b[0] && a.skip(1) == b.skip(1) {
            assert(a =~= seq![a[0]] + a.skip(1));
            assert(b =~= seq![b[0]] + b.skip(1));
        }
    }
    if a.len() == 0 && b.len() == 0 {
        assert(a =~= b);
    }
}

pub proof fn lemma_bytes_order_trans(a: Seq<u8>, b: Seq<u8>, c: Seq<u8>)
    requires
        bytes_order(a, b) < 0,
        bytes_order(b, c) < 0,
    ensures
        bytes_order(a, c) < 0,
    decreases a.len(),
{
    if a.len() > 0 && b.len() > 0 && c.len() > 0 && a[0] == b[0] && b[0] == c[0] {
        lemma_bytes_order_trans(a.skip(1), b.skip(1), c.skip(1));
    }
}

/// Bytes are ordered as unsigned numbers, and byte strings lexicographically
/// in that order: `a` comes first exactly when, at the first position where
/// they differ, `a` holds the smaller byte, or when `a` is a proper prefix of
/// `b`.
pub proof fn lemma_bytes_order_lexicographic(a: Seq<u8>, b: Seq<u8>)
    ensures
        bytes_order(a, b) < 0 <==> (exists|k: int|
            0 <= k < a.len() && k < b.len() && a.take(k) == b.take(k) && #[trigger] a[k] < #[trigger] b[k])
            || (a.len() < b.len() && a == b.take(a.len() as int)),
        forall|x: u8, y: u8| #[trigger] bytes_order(seq![x], seq![y]) < 0 <==> x < y,
    decreases a.len(),
{
    assert forall|x: u8, y: u8| #[trigger] bytes_order(seq![x], seq![y]) < 0 <==> x < y by {
        let (s, t) = (seq![x], seq![y]);
        assert(s[0] == x && t[0] == y);
        if x == y {
            assert(s.skip(1) =~= Seq::<u8>::empty());
            assert(t.skip(1) =~= Seq::<u8>::empty());
            assert(bytes_order(s.skip(1), t.skip(1)) == 0);
        }
    }
    if a.len() == 0 {
        assert(a =~= b.take(0));
    } else if b.len() == 0 {
    } else if a[0] < b[0] {
        assert(a.take(0) =~= b.take(0));
        assert(a[0] < b[0]);
    } else if a[0] > b[0] {
        assert forall|k: int| 0 <= k < a.len() && k < b.len() && a.take(k) == b.take(k) implies !(a[k] < b[k]) by {
            if k > 0 {
                assert(a.take(k)[0] == b.take(k)[0]);
            }
        }
        if a.len() < b.len() && a == b.take(a.len() as int) {
            assert(b.take(a.len() as int)[0] == b[0]);
        }
    } else {
        let (a1, b1) = (a.skip(1), b.skip(1));
        lemma_bytes_order_lexicographic(a1, b1);
        if exists|k: int| 0 <= k < a1.len() && k < b1.len() && a1.take(k) == b1.take(k) && #[trigger] a1[k] < #[trigger] b1[k] {
            let k = choose|k: int| 0 <= k < a1.len() && k < b1.len() && a1.take(k) == b1.take(k) && #[trigger] a1[k] < #[trigger] b1[k];
            assert(a.take(k + 1) =~= seq![a[0]] + a1.take(k));
            assert(b.take(k + 1) =~= seq![b[0]] + b1.take(k));
            assert(a[k + 1] == a1[k] && b[k + 1] == b1[k]);
        }
        if exists|k: int| 0 <= k < a.len() && k < b.len() && a.take(k) == b.take(k) && #[trigger] a[k] < #[trigger] b[k] {
            let k = choose|k: int| 0 <= k < a.len() && k < b.len() && a.take(k) == b.take(k) && #[trigger] a[k] < #[trigger] b[k];
            assert(k > 0);
            assert forall|i: int| 0 <= i < k - 1 implies #[trigger] a1.take(k - 1)[i] == b1.take(k - 1)[i] by {
                assert(a.take(k)[i + 1] == b.take(k)[i + 1]);
            }
            assert(a1.take(k - 1) =~= b1.take(k - 1));
            assert(a1[k - 1] == a[k] && b1[k - 1] == b[k]);
        }
        if a1.len() < b1.len() && a1 == b1.take(a1.len() as int) {
            assert forall|i: int| 0 <= i < a.len() implies #[trigger] a[i] == b.take(a.len() as int)[i] by {
                if i > 0 {
                    assert(a[i] == a1[i - 1]);
                    assert(b[i] == b1[i - 1]);
                    assert(a1[i - 1] == b1.take(a1.len() as int)[i - 1]);
                }
            }
            assert(a =~= b.take(a.len() as int));
        }
        if a.len() < b.len() && a == b.take(a.len() as int) {
            assert(a1 =~= b1.take(a1.len() as int));
        }
    }
}

/// Compare `a[a0..a1]` with `b[b0..b1]` lexicographically.
pub fn bytes_order_ranges(a: &[u8], a0: usize, a1: usize, b: &[u8], b0: usize, b1: usize) -> (r: i8)
    requires
        a0 <= a1 <= a@.len(),
        b0 <= b1 <= b@.len(),
    ensures
        r as int == bytes_order(a@.subrange(a0 as int, a1 as int), b@.subrange(b0 as int, b1 as int)),
{
    let ghost x = a@.subrange(a0 as int, a1 as int);
    let ghost y = b@.subrange(b0 as int, b1 as int);
    let mut k: usize = 0;
    assert(x.skip(0) =~= x);
    assert(y.skip(0) =~= y);
    loop
        invariant
            a0 <= a1 <= a@.len(),
            b0 <= b1 <= b@.len(),
            x == a@.subrange(a0 as int, a1 as int),
            y == b@.subrange(b0 as int, b1 as int),
            k <= x.len(),
            k <= y.len(),
            bytes_order(x, y) == bytes_order(x.skip(k as int), y.skip(k as int)),
        decreases x.len() - k,
    {
        let ghost xs = x.skip(k as int);
        let ghost ys = y.skip(k as int);
        if k == a1 - a0 {
            if k == b1 - b0 {
                return 0;
            }
            return -1;
        }
        if k == b1 - b0 {
            return 1;
        }
        let p = a[a0 + k];
        let q = b[b0 + k];
        assert(xs[0] == p);
        assert(ys[0] == q);
        if p < q {
            return -1;
        }
        if p > q {
            return 1;
        }
        assert(xs.skip(1) =~= x.skip(k + 1));
        assert(ys.skip(1) =~= y.skip(k + 1));
        k = k + 1;
    }
}

/// Compare two strings as `str` orders them: by their UTF-8 bytes.
pub fn compare_text(a: &str, b: &str) -> (r: i8)
    ensures
        r as int == bytes_order(encode_utf8(a@), encode_utf8(b@)),
{
    let x = a.as_bytes();
    let y = b.as_bytes();
    assert(x@.subrange(0, x@.len() as int) =~= x@);
    assert(y@.subrange(0, y@.len() as int) =~= y@);
    bytes_order_ranges(x, 0, x.len(), y, 0, y.len())
}

} // verus!
