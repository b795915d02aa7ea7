//! The order and equality of paths, as `std::path::Path` compares them on
//! unix: component by component.
use vstd::prelude::*;
use vstd::utf8::*;
use crate::text::{bytes_order, bytes_order_ranges, lemma_bytes_order_props, lemma_bytes_order_trans, split_where};

verus! {

/// One component of a unix path.
pub enum PathComponent {
    RootDir,
    CurDir,
    ParentDir,
    Normal(Seq<u8>),
}

/// The pieces of a path between `/` bytes.
pub open spec fn slash_split(b: Seq<u8>) -> Seq<Seq<u8>> {
    split_where(b, |x: u8| x == 0x2F)
}

/// The component one piece between slashes contributes: none for an empty
/// piece or `.`, a parent for `..`, a normal component otherwise.
pub open spec fn piece_components(p: Seq<u8>) -> Seq<PathComponent> {
    if p.len() == 0 || p == seq![0x2Eu8] {
        Seq::empty()
    } else if p == seq![0x2Eu8, 0x2Eu8] {
        seq![PathComponent::ParentDir]
    } else {
        seq![PathComponent::Normal(p)]
    }
}

/// The components of a sequence of pieces, in order.
pub open spec fn pieces_components(ps: Seq<Seq<u8>>) -> Seq<PathComponent>
    decreases ps.len(),
{
    if ps.len() == 0 {
        Seq::empty()
    } else {
        pieces_components(ps.drop_last()) + piece_components(ps.last())
    }
}

/// The path starts with a `.` piece (`.` or `./...`).
pub open spec fn starts_with_cur_dir(b: Seq<u8>) -> bool {
    b.len() > 0 && b[0] == 0x2E && (b.len() == 1 || b[1] == 0x2F)
}

/// The components of a unix path given by its bytes: a root for a leading
/// `/`, a current directory for a leading `.` piece, then the pieces between
/// slashes with empty and `.` pieces dropped.
pub open spec fn path_components(b: Seq<u8>) -> Seq<PathComponent> {
    if b.len() > 0 && b[0] == 0x2F {
        seq![PathComponent::RootDir] + pieces_components(slash_split(b.skip(1)))
    } else if starts_with_cur_dir(b) {
        seq![PathComponent::CurDir] + pieces_components(slash_split(b.skip(1)))
    } else {
        pieces_components(slash_split(b))
    }
}

/// The components of the path a string names.
#[verifier::opaque]
pub open spec fn path_key(p: Seq<char>) -> Seq<PathComponent> {
    path_components(encode_utf8(p))
}

/// The rank of a component's kind, in the order std declares them.
pub open spec fn component_rank(c: PathComponent) -> int {
    match c {
        PathComponent::RootDir => 0,
        PathComponent::CurDir => 1,
        PathComponent::ParentDir => 2,
        PathComponent::Normal(_) => 3,
    }
}

/// Comparison of two components: by kind, then normal components by bytes.
pub open spec fn component_order(x: PathComponent, y: PathComponent) -> int {
    if component_rank(x) < component_rank(y) {
        -1
    } else if component_rank(x) > component_rank(y) {
        1
    } else {
        match (x, y) {
            (PathComponent::Normal(a), PathComponent::Normal(b)) => bytes_order(a, b),
            _ => 0,
        }
    }
}

/// Lexicographic comparison of component sequences: -1, 0 or 1.
pub open spec fn components_order(a: Seq<PathComponent>, b: Seq<PathComponent>) -> int
    decreases a.len(),
{
    if a.len() == 0 {
        if b.len() == 0 { 0 } else { -1 }
    } else if b.len() == 0 {
        1
    } else if component_order(a[0], b[0]) != 0 {
        component_order(a[0], b[0])
    } else {
        components_order(a.skip(1), b.skip(1))
    }
}

/// How `Path` orders two paths: -1, 0 or 1.
#[verifier::opaque]
pub open spec fn path_order(p: Seq<char>, q: Seq<char>) -> int {
    components_order(path_key(p), path_key(q))
}

/// The two strings name the same path (`Path` equality).
pub open spec fn path_eq(p: Seq<char>, q: Seq<char>) -> bool {
    path_key(p) == path_key(q)
}

// ----- properties of the orders -----

pub proof fn lemma_component_order_props(x: PathComponent, y: PathComponent)
    ensures
        -1 <= component_order(x, y) <= 1,
        component_order(x, y) == -component_order(y, x),
        component_order(x, y) == 0 <==> x == y,
{
    match (x, y) {
        (PathComponent::Normal(a), PathComponent::Normal(b)) => lemma_bytes_order_props(a, b),
        _ => {},
    }
}

pub proof fn lemma_component_order_trans(x: PathComponent, y: PathComponent, z: PathComponent)
    requires
        component_order(x, y) < 0,
        component_order(y, z) < 0,
    ensures
        component_order(x, z) < 0,
{
    match (x, y, z) {
        (PathComponent::Normal(a), PathComponent::Normal(b), PathComponent::Normal(c)) => {
            lemma_bytes_order_trans(a, b, c)
        },
        _ => {},
    }
}

pub proof fn lemma_components_order_props(a: Seq<PathComponent>, b: Seq<PathComponent>)
    ensures
        -1 <= components_order(a, b) <= 1,
        components_order(a, b) == -components_order(b, a),
        components_order(a, b) == 0 <==> a == b,
    decreases a.len(),
{
    if a.len() > 0 && b.len() > 0 {
        lemma_component_order_props(a[0], b[0]);
        lemma_components_order_props(a.skip(1), b.skip(1));
        if a[0] == b[0] && a.skip(1) == b.skip(1) {
            assert(a =~= seq![a[0]] + a.skip(1));
            assert(b =~= seq![b[0]] + b.skip(1));
        }
    }
    if a.len() == 0 && b.len() == 0 {
        assert(a =~= b);
    }
}

pub proof fn lemma_components_order_trans(a: Seq<PathComponent>, b: Seq<PathComponent>, c: Seq<PathComponent>)
    requires
        components_order(a, b) < 0,
        components_order(b, c) < 0,
    ensures
        components_order(a, c) < 0,
    decreases a.len(),
{
    if a.len() > 0 && b.len() > 0 && c.len() > 0 {
        lemma_component_order_props(a[0], b[0]);
        lemma_component_order_props(b[0], c[0]);
        lemma_component_order_props(a[0], c[0]);
        if component_order(a[0], b[0]) < 0 && component_order(b[0], c[0]) < 0 {
            lemma_component_order_trans(a[0], b[0], c[0]);
        } else if component_order(a[0], b[0]) == 0 && component_order(b[0], c[0]) == 0 {
            lemma_components_order_trans(a.skip(1), b.skip(1), c.skip(1));
        }
    }
}

/// `Path`'s order is a strict total order on the paths it tells apart:
/// irreflexive up to path equality, antisymmetric and transitive.
pub proof fn lemma_path_order_order(p: Seq<char>, q: Seq<char>, r: Seq<char>)
    ensures
        -1 <= path_order(p, q) <= 1,
        path_order(p, q) == -path_order(q, p),
        path_order(p, q) == 0 <==> path_eq(p, q),
        path_order(p, q) < 0 && path_order(q, r) < 0 ==> path_order(p, r) < 0,
{
    reveal(path_order);
    lemma_components_order_props(path_key(p), path_key(q));
    if path_order(p, q) < 0 && path_order(q, r) < 0 {
        lemma_components_order_trans(path_key(p), path_key(q), path_key(r));
    }
}


// ----- the root sorts first -----

proof fn lemma_split_first_piece(b: Seq<u8>, k: int)
    requires
        0 <= k <= b.len(),
        forall|i: int| 0 <= i < k ==> b[i] != 0x2F,
    ensures
        slash_split(b).len() >= 1,
        slash_split(b)[0].len() >= k,
        slash_split(b)[0].take(k) == b.take(k),
        k == b.len() ==> slash_split(b).len() == 1 && slash_split(b)[0] == b,
    decreases b.len(),
{
    if b.len() == 0 {
        assert(b.take(k) =~= Seq::<u8>::empty());
        assert(slash_split(b)[0].take(k) =~= Seq::<u8>::empty());
        assert(b =~= Seq::<u8>::empty());
    } else {
        let d = b.drop_last();
        let x = b.last();
        let kk = if k == b.len() { k - 1 } else { k };
        lemma_split_first_piece(d, kk);
        lemma_slash_split_push(d, x);
        assert(d.push(x) =~= b);
        let r = slash_split(d);
        if k == b.len() {
            assert(x != 0x2F);
            assert(slash_split(b)[0] =~= d.push(x));
            assert(slash_split(b)[0].take(k) =~= b.take(k));
        } else {
            assert(d.take(k) =~= b.take(k));
            if x != 0x2F && r.len() == 1 {
                assert(slash_split(b)[0].take(k) =~= r[0].take(k));
            }
        }
    }
}

proof fn lemma_pieces_nonempty(ps: Seq<Seq<u8>>)
    requires
        ps.len() >= 1,
        piece_components(ps[0]).len() > 0,
    ensures
        pieces_components(ps).len() > 0,
    decreases ps.len(),
{
    if ps.len() > 1 {
        lemma_pieces_nonempty(ps.drop_last());
    } else {
        assert(ps.drop_last() =~= Seq::<Seq<u8>>::empty());
        assert(ps.last() == ps[0]);
    }
}

proof fn lemma_path_components_nonempty(b: Seq<u8>)
    requires
        b.len() > 0,
    ensures
        path_components(b).len() > 0,
{
    if b[0] != 0x2F && !starts_with_cur_dir(b) {
        lemma_split_first_piece(b, 1);
        let p0 = slash_split(b)[0];
        assert(p0[0] == b.take(1)[0]);
        if p0 == seq![0x2Eu8] {
            if b.len() >= 2 {
                lemma_split_first_piece(b, 2);
            }
        }
        if p0 == seq![0x2Eu8, 0x2Eu8] {
        }
        assert(piece_components(p0).len() > 0);
        lemma_pieces_nonempty(slash_split(b));
    }
}

proof fn lemma_root_key()
    ensures
        path_key("/"@) == seq![PathComponent::RootDir],
{
    reveal(path_key);
    reveal_strlit("/");
    let b = encode_utf8("/"@);
    is_ascii_chars_encode_utf8("/"@);
    assert(b =~= seq![0x2Fu8]);
    assert(b.skip(1) =~= Seq::<u8>::empty());
    let e = Seq::<u8>::empty();
    assert(slash_split(e) =~= seq![e]);
    assert(seq![e].drop_last() =~= Seq::<Seq<u8>>::empty());
    assert(seq![e].last() == e);
    assert(piece_components(e) =~= Seq::<PathComponent>::empty());
    assert(pieces_components(Seq::<Seq<u8>>::empty()) =~= Seq::<PathComponent>::empty());
    assert(pieces_components(seq![e]) =~= Seq::<PathComponent>::empty());
    assert(path_components(b) =~= seq![PathComponent::RootDir]);
}

/// The root `/` comes no later than any non-empty path, and only the paths
/// equal to it tie with it.
pub proof fn lemma_root_sorts_first(p: Seq<char>)
    requires
        p.len() > 0,
    ensures
        path_order("/"@, p) <= 0,
        path_order("/"@, p) == 0 <==> path_eq("/"@, p),
{
    reveal(path_order);
    lemma_root_key();
    encode_utf8_first_scalar(p);
    reveal(path_key);
    lemma_path_components_nonempty(encode_utf8(p));
    let k = path_key(p);
    let r = seq![PathComponent::RootDir];
    lemma_components_order_props(r, k);
    lemma_component_order_props(r[0], k[0]);
    assert(r.skip(1) =~= Seq::<PathComponent>::empty());
    if component_order(r[0], k[0]) == 0 {
        assert(components_order(r, k) == components_order(r.skip(1), k.skip(1)));
        assert(components_order(r.skip(1), k.skip(1)) <= 0);
    } else {
        assert(component_order(r[0], k[0]) < 0);
    }
}

// ----- computing components and comparing -----

/// The kind of a component found in a path's bytes.
pub enum ComponentKind {
    RootDir,
    CurDir,
    ParentDir,
    Normal,
}

/// A component of a path, located in its bytes (`start..end` for a normal one).
pub struct ComponentSpan {
    pub kind: ComponentKind,
    pub start: usize,
    pub end: usize,
}

pub open spec fn span_component(b: Seq<u8>, s: ComponentSpan) -> PathComponent {
    match s.kind {
        ComponentKind::RootDir => PathComponent::RootDir,
        ComponentKind::CurDir => PathComponent::CurDir,
        ComponentKind::ParentDir => PathComponent::ParentDir,
        ComponentKind::Normal => PathComponent::Normal(b.subrange(s.start as int, s.end as int)),
    }
}

pub open spec fn spans_view(b: Seq<u8>, spans: Seq<ComponentSpan>) -> Seq<PathComponent> {
    Seq::new(spans.len(), |i: int| span_component(b, spans[i]))
}

pub open spec fn spans_within(spans: Seq<ComponentSpan>, n: int) -> bool {
    forall|k: int| 0 <= k < spans.len() ==> (#[trigger] spans[k]).start <= spans[k].end <= n
}

proof fn lemma_slash_split_push(s: Seq<u8>, x: u8)
    ensures
        slash_split(s.push(x)) == (if x == 0x2F {
            slash_split(s).push(Seq::empty())
        } else {
            slash_split(s).update(slash_split(s).len() - 1, slash_split(s).last().push(x))
        }),
{
    assert(s.push(x).drop_last() =~= s);
}

proof fn lemma_pieces_components_push(ps: Seq<Seq<u8>>, p: Seq<u8>)
    ensures
        pieces_components(ps.push(p)) == pieces_components(ps) + piece_components(p),
{
    assert(ps.push(p).drop_last() =~= ps);
}

/// Append the component of the piece `b[start..end]`, if it has one.
fn push_piece(b: &[u8], start: usize, end: usize, spans: &mut Vec<ComponentSpan>)
    requires
        start <= end <= b@.len(),
    ensures
        spans_view(b@, final(spans)@) == spans_view(b@, old(spans)@) + piece_components(
            b@.subrange(start as int, end as int),
        ),
        spans_within(old(spans)@, b@.len() as int) ==> spans_within(final(spans)@, b@.len() as int),
{
    let ghost p = b@.subrange(start as int, end as int);
    let ghost before = spans_view(b@, spans@);
    let len = end - start;
    if len == 0 || (len == 1 && b[start] == 0x2E) {
        if len == 1 {
            assert(p =~= seq![0x2Eu8]);
        }
        assert(piece_components(p) =~= Seq::<PathComponent>::empty());
        assert(spans_view(b@, spans@) =~= before + piece_components(p));
    } else if len == 2 && b[start] == 0x2E && b[start + 1] == 0x2E {
        assert(p =~= seq![0x2Eu8, 0x2Eu8]);
        spans.push(ComponentSpan { kind: ComponentKind::ParentDir, start, end });
        assert(spans_view(b@, spans@) =~= before + piece_components(p));
    } else {
        assert(p != seq![0x2Eu8]) by {
            if len == 1 {
                assert(p[0] == b@[start as int]);
            }
        }
        assert(p != seq![0x2Eu8, 0x2Eu8]) by {
            if len == 2 {
                assert(p[0] == b@[start as int]);
                assert(p[1] == b@[start + 1]);
            }
        }
        spans.push(ComponentSpan { kind: ComponentKind::Normal, start, end });
        assert(spans_view(b@, spans@) =~= before + piece_components(p));
    }
}

/// The components of the path whose bytes are `b`.
pub fn path_spans(b: &[u8]) -> (r: Vec<ComponentSpan>)
    ensures
        spans_view(b@, r@) == path_components(b@),
        spans_within(r@, b@.len() as int),
{
    let n = b.len();
    let mut r: Vec<ComponentSpan> = Vec::new();
    let body: usize = if n > 0 && b[0] == 0x2F {
        r.push(ComponentSpan { kind: ComponentKind::RootDir, start: 0, end: 0 });
        1
    } else if n > 0 && b[0] == 0x2E && (n == 1 || b[1] == 0x2F) {
        r.push(ComponentSpan { kind: ComponentKind::CurDir, start: 0, end: 0 });
        1
    } else {
        0
    };
    let ghost head = spans_view(b@, r@);
    let ghost rest = b@.skip(body as int);
    proof {
        if n > 0 && b@[0] == 0x2F {
            assert(head =~= seq![PathComponent::RootDir]);
        } else if starts_with_cur_dir(b@) {
            assert(head =~= seq![PathComponent::CurDir]);
        } else {
            assert(head =~= Seq::<PathComponent>::empty());
            assert(rest =~= b@);
        }
    }
    assert(path_components(b@) == head + pieces_components(slash_split(rest)));
    let mut start: usize = body;
    let mut i: usize = body;
    let ghost mut done: Seq<Seq<u8>> = Seq::empty();
    assert(rest.take(0) =~= Seq::<u8>::empty());
    assert(b@.subrange(body as int, body as int) =~= Seq::<u8>::empty());
    assert(done.push(b@.subrange(body as int, body as int)) =~= slash_split(rest.take(0)));
    assert(spans_view(b@, r@) =~= head + pieces_components(done));
    while i < n
        invariant
            n == b@.len(),
            body <= start <= i <= n,
            rest == b@.skip(body as int),
            spans_within(r@, n as int),
            done.push(b@.subrange(start as int, i as int)) == slash_split(rest.take(i - body)),
            spans_view(b@, r@) == head + pieces_components(done),
        decreases n - i,
    {
        assert(rest.take(i + 1 - body) =~= rest.take(i - body).push(b@[i as int]));
        proof {
            lemma_slash_split_push(rest.take(i - body), b@[i as int]);
        }
        if b[i] == 0x2F {
            let ghost piece = b@.subrange(start as int, i as int);
            push_piece(b, start, i, &mut r);
            proof {
                lemma_pieces_components_push(done, piece);
                done = done.push(piece);
            }
            assert(spans_view(b@, r@) =~= head + pieces_components(done));
            start = i + 1;
            assert(b@.subrange(start as int, i + 1) =~= Seq::<u8>::empty());
            assert(done.push(b@.subrange(start as int, i + 1)) =~= slash_split(rest.take(i + 1 - body)));
        } else {
            assert(b@.subrange(start as int, i + 1) =~= b@.subrange(start as int, i as int).push(b@[i as int]));
            assert(done.push(b@.subrange(start as int, i + 1)) =~= slash_split(rest.take(i + 1 - body)));
        }
        i = i + 1;
    }
    let ghost piece = b@.subrange(start as int, i as int);
    push_piece(b, start, i, &mut r);
    proof {
        lemma_pieces_components_push(done, piece);
    }
    assert(rest.take(i - body) =~= rest);
    assert(spans_view(b@, r@) =~= head + pieces_components(done.push(piece)));
    r
}

fn component_order_exec(a: &[u8], x: &ComponentSpan, b: &[u8], y: &ComponentSpan) -> (r: i8)
    requires
        x.start <= x.end <= a@.len(),
        y.start <= y.end <= b@.len(),
    ensures
        r as int == component_order(span_component(a@, *x), span_component(b@, *y)),
{
    let rx: u8 = match x.kind {
        ComponentKind::RootDir => 0,
        ComponentKind::CurDir => 1,
        ComponentKind::ParentDir => 2,
        ComponentKind::Normal => 3,
    };
    let ry: u8 = match y.kind {
        ComponentKind::RootDir => 0,
        ComponentKind::CurDir => 1,
        ComponentKind::ParentDir => 2,
        ComponentKind::Normal => 3,
    };
    assert(rx as int == component_rank(span_component(a@, *x)));
    assert(ry as int == component_rank(span_component(b@, *y)));
    if rx < ry {
        -1
    } else if rx > ry {
        1
    } else if rx == 3 {
        bytes_order_ranges(a, x.start, x.end, b, y.start, y.end)
    } else {
        0
    }
}

/// Compare two paths given by their bytes, as `Path` orders them.
pub fn compare_path_bytes(a: &[u8], b: &[u8]) -> (r: i8)
    ensures
        r as int == components_order(path_components(a@), path_components(b@)),
{
    let xs = path_spans(a);
    let ys = path_spans(b);
    let ghost u = spans_view(a@, xs@);
    let ghost v = spans_view(b@, ys@);
    let mut k: usize = 0;
    assert(u.skip(0) =~= u);
    assert(v.skip(0) =~= v);
    loop
        invariant
            u == spans_view(a@, xs@),
            v == spans_view(b@, ys@),
            u == path_components(a@),
            v == path_components(b@),
            spans_within(xs@, a@.len() as int),
            spans_within(ys@, b@.len() as int),
            k <= xs@.len(),
            k <= ys@.len(),
            components_order(u, v) == components_order(u.skip(k as int), v.skip(k as int)),
        decreases xs@.len() - k,
    {
        let ghost us = u.skip(k as int);
        let ghost vs = v.skip(k as int);
        if k == xs.len() {
            if k == ys.len() {
                return 0;
            }
            return -1;
        }
        if k == ys.len() {
            return 1;
        }
        assert(xs@[k as int].start <= xs@[k as int].end <= a@.len());
        assert(ys@[k as int].start <= ys@[k as int].end <= b@.len());
        let c = component_order_exec(a, &xs[k], b, &ys[k]);
        assert(us[0] == span_component(a@, xs@[k as int]));
        assert(vs[0] == span_component(b@, ys@[k as int]));
        if c != 0 {
            return c;
        }
        assert(us.skip(1) =~= u.skip(k + 1));
        assert(vs.skip(1) =~= v.skip(k + 1));
        k = k + 1;
    }
}

/// Compare two paths as `Path` orders them: -1, 0 or 1.
pub fn compare_paths(p: &str, q: &str) -> (r: i8)
    ensures
        r as int == path_order(p@, q@),
{
    reveal(path_order);
    reveal(path_key);
    compare_path_bytes(p.as_bytes(), q.as_bytes())
}

/// Whether two strings name the same path, as `Path` equality decides.
pub fn paths_equal(p: &str, q: &str) -> (r: bool)
    ensures
        r == path_eq(p@, q@),
{
    proof {
        lemma_path_order_order(p@, q@, q@);
    }
    compare_paths(p, q) == 0
}

} // verus!
