//! Paths as bytes, read by the Unix conventions.
//!
//! A path is a string of bytes. Slashes separate its components; repeated
//! slashes and components `.` count for nothing, except a `.` that opens a
//! relative path. Two paths are the same when their components are.
use vstd::prelude::*;

use crate::seqs::{law_lex, lemma_position, lemma_position_is, lex_lt, position, strict_order};

verus! {

/// The byte that separates components.
pub const SLASH: u8 = 0x2f;

/// The byte that the special components are made of.
pub const DOT: u8 = 0x2e;

/// The component that stands for the root directory.
pub open spec fn root_dir() -> Seq<u8> {
    seq![SLASH]
}

/// The component that stands for the current directory.
pub open spec fn cur_dir() -> Seq<u8> {
    seq![DOT]
}

/// The component that stands for the parent directory.
pub open spec fn parent_dir() -> Seq<u8> {
    seq![DOT, DOT]
}

/// Whether a path starts at the root directory.
pub open spec fn absolute(s: Seq<u8>) -> bool {
    s.len() > 0 && s[0] == SLASH
}

/// Whether a stretch between slashes counts as a component.
pub open spec fn counts(p: Seq<u8>) -> bool {
    p.len() > 0 && p != cur_dir()
}

/// The stretches between slashes that count, in order.
pub open spec fn names(s: Seq<u8>) -> Seq<Seq<u8>>
    decreases s.len(),
{
    let k = position(s, SLASH);
    if !(0 <= k < s.len()) {
        if counts(s) {
            seq![s]
        } else {
            Seq::empty()
        }
    } else if counts(s.take(k)) {
        seq![s.take(k)] + names(s.skip(k + 1))
    } else {
        names(s.skip(k + 1))
    }
}

/// The stretch before the first slash.
pub open spec fn first_piece(s: Seq<u8>) -> Seq<u8> {
    s.take(position(s, SLASH))
}

/// What stands before the names: the root directory, a leading `.`, or nothing.
pub open spec fn head(s: Seq<u8>) -> Seq<Seq<u8>> {
    if absolute(s) {
        seq![root_dir()]
    } else if first_piece(s) == cur_dir() {
        seq![cur_dir()]
    } else {
        Seq::empty()
    }
}

/// The components of a path.
pub open spec fn components(s: Seq<u8>) -> Seq<Seq<u8>> {
    head(s) + names(s)
}

/// Whether two paths have the same components.
pub open spec fn same_path(a: Seq<u8>, b: Seq<u8>) -> bool {
    components(a) == components(b)
}

/// Where a component stands among the kinds: the root directory, then `.`,
/// then `..`, then names.
pub open spec fn rank(c: Seq<u8>) -> int {
    if c == root_dir() {
        0
    } else if c == cur_dir() {
        1
    } else if c == parent_dir() {
        2
    } else {
        3
    }
}

/// The order of bytes.
pub open spec fn byte_order() -> spec_fn(u8, u8) -> bool {
    |a: u8, b: u8| a < b
}

/// The order of components: by kind, then byte by byte.
pub open spec fn component_order() -> spec_fn(Seq<u8>, Seq<u8>) -> bool {
    |a: Seq<u8>, b: Seq<u8>|
        rank(a) < rank(b) || (rank(a) == rank(b) && lex_lt(byte_order(), a, b))
}

/// The order of paths: component by component.
pub open spec fn path_lt(a: Seq<u8>, b: Seq<u8>) -> bool {
    lex_lt(component_order(), components(a), components(b))
}

/// Components are strictly and totally ordered.
pub proof fn lemma_component_order()
    ensures
        strict_order(component_order()),
{
    crate::seqs::lemma_lex_strict(byte_order());
    let f = |a: Seq<u8>, b: Seq<u8>| lex_lt(byte_order(), a, b);
    let g = component_order();
    assert forall|a: Seq<u8>| !#[trigger] g(a, a) by {
        assert(!f(a, a));
    }
    assert forall|a: Seq<u8>, b: Seq<u8>, c: Seq<u8>| #[trigger] g(a, b) && #[trigger] g(
        b,
        c,
    ) implies g(a, c) by {
        if rank(a) == rank(b) && rank(b) == rank(c) {
            assert(f(a, b) && f(b, c));
            assert(f(a, c));
        }
    }
    assert forall|a: Seq<u8>, b: Seq<u8>| #[trigger] g(a, b) || a == b || g(b, a) by {
        assert(f(a, b) || a == b || f(b, a));
    }
}

/// A stretch of bytes in a path.
#[derive(Clone, Copy)]
pub struct Span {
    pub start: usize,
    pub end: usize,
}

/// The bytes of `s` that a span covers.
pub open spec fn covered(s: Seq<u8>, span: Span) -> Seq<u8> {
    s.subrange(span.start as int, span.end as int)
}

/// Whether the spans lie in `s` and cover the items of `parts` one by one.
pub open spec fn cover(s: Seq<u8>, spans: Seq<Span>, parts: Seq<Seq<u8>>) -> bool {
    &&& spans.len() == parts.len()
    &&& forall|i: int|
        0 <= i < spans.len() ==> {
            &&& (#[trigger] spans[i]).start <= spans[i].end <= s.len()
            &&& covered(s, spans[i]) == parts[i]
        }
}

/// Finds the first slash at or after `from`.
pub fn find_slash(b: &[u8], from: usize) -> (i: usize)
    requires
        from <= b@.len(),
    ensures
        i == from + position(b@.skip(from as int), SLASH),
        from <= i <= b@.len(),
        i < b@.len() ==> b@[i as int] == SLASH,
{
    let mut i: usize = from;
    while i < b.len() && b[i] != SLASH
        invariant
            from <= i <= b@.len(),
            forall|j: int| from <= j < i ==> b@[j] != SLASH,
        decreases b@.len() - i,
    {
        i += 1;
    }
    proof {
        lemma_position_is(b@.skip(from as int), SLASH, i - from);
    }
    i
}

/// Locates the components of a path.
pub fn component_spans(b: &[u8]) -> (spans: Vec<Span>)
    ensures
        cover(b@, spans@, components(b@)),
{
    let ghost s = b@;
    let mut spans: Vec<Span> = Vec::new();
    let first: usize = find_slash(b, 0);
    assert(s.skip(0) == s);
    if b.len() > 0 && b[0] == SLASH {
        spans.push(Span { start: 0, end: 1 });
        assert(covered(s, spans@[0]) == root_dir());
        assert(cover(s, spans@, head(s)));
    } else if first == 1 && b[0] == DOT {
        spans.push(Span { start: 0, end: 1 });
        assert(covered(s, spans@[0]) == cur_dir());
        assert(first_piece(s) == cur_dir());
        assert(cover(s, spans@, head(s)));
    } else {
        assert(first_piece(s).len() == first);
        assert(first == 1 ==> first_piece(s)[0] == s[0]);
        assert(cover(s, spans@, head(s)));
    }
    let ghost mut done: Seq<Seq<u8>> = head(s);
    let mut a: usize = 0;
    let mut more: bool = true;
    while more
        invariant
            s == b@,
            a <= s.len(),
            cover(s, spans@, done),
            more ==> done + names(s.skip(a as int)) == components(s),
            !more ==> done == components(s),
        decreases s.len() - a, (if more { 1int } else { 0int }),
    {
        let k: usize = find_slash(b, a);
        let ghost rest = s.skip(a as int);
        let ghost piece = rest.take(k - a);
        assert(s.subrange(a as int, k as int) == piece);
        if k < b.len() {
            assert(s.skip(k + 1) == rest.skip(k - a + 1));
        } else {
            assert(piece == rest);
        }
        if k > a && !(k == a + 1 && b[a] == DOT) {
            assert(counts(piece)) by {
                if piece == cur_dir() {
                    assert(piece.len() == 1 && piece[0] == DOT);
                }
            }
            let ghost before = done;
            let ghost old_spans = spans@;
            spans.push(Span { start: a, end: k });
            proof {
                done = done.push(piece);
                assert(cover(s, spans@, done)) by {
                    assert forall|i: int| 0 <= i < spans@.len() implies {
                        &&& (#[trigger] spans@[i]).start <= spans@[i].end <= s.len()
                        &&& covered(s, spans@[i]) == done[i]
                    } by {
                        if i < old_spans.len() {
                            assert(spans@[i] == old_spans[i]);
                        }
                    }
                }
                if k < b@.len() {
                    assert(before + (seq![piece] + names(s.skip(k + 1))) == done + names(
                        s.skip(k + 1),
                    ));
                } else {
                    assert(before + seq![piece] == done);
                }
            }
        } else {
            assert(!counts(piece)) by {
                if k > a {
                    assert(piece =~= cur_dir());
                }
            }
            assert(k == b@.len() ==> done + Seq::<Seq<u8>>::empty() == done);
        }
        if k < b.len() {
            a = k + 1;
        } else {
            more = false;
        }
    }
    spans
}

/// Splitting at a slash splits the names.
pub proof fn lemma_names_concat(a: Seq<u8>, b: Seq<u8>)
    ensures
        names(a.push(SLASH) + b) == names(a) + names(b),
    decreases a.len(),
{
    let x = a.push(SLASH) + b;
    let k = position(a, SLASH);
    lemma_position(a, SLASH);
    assert forall|i: int| 0 <= i < k implies x[i] != SLASH by {
        assert(x[i] == a[i]);
    }
    assert(x[k] == SLASH);
    lemma_position_is(x, SLASH, k);
    assert(x.take(k) == a.take(k));
    if k < a.len() {
        lemma_names_concat(a.skip(k + 1), b);
        assert(x.skip(k + 1) == a.skip(k + 1).push(SLASH) + b);
        if counts(a.take(k)) {
            assert(seq![a.take(k)] + (names(a.skip(k + 1)) + names(b)) == (seq![a.take(k)] + names(
                a.skip(k + 1),
            )) + names(b));
        }
    } else {
        assert(a.take(k) == a);
        assert(x.skip(k + 1) == b);
        assert(Seq::<Seq<u8>>::empty() + names(b) == names(b));
    }
}

/// The names of a piece without slashes: itself, if it counts.
pub proof fn lemma_names_of_piece(c: Seq<u8>)
    requires
        !c.contains(SLASH),
    ensures
        names(c) == if counts(c) {
            seq![c]
        } else {
            Seq::empty()
        },
{
    assert forall|i: int| 0 <= i < c.len() implies c[i] != SLASH by {
        assert(c.contains(c[i]));
    }
    lemma_position_is(c, SLASH, c.len() as int);
}

/// The empty path has no components.
pub proof fn lemma_empty_path()
    ensures
        components(Seq::empty()) == Seq::<Seq<u8>>::empty(),
{
    let e = Seq::<u8>::empty();
    lemma_position_is(e, SLASH, 0);
    assert(first_piece(e).len() == 0);
    assert(cur_dir().len() == 1);
    assert(head(e) =~= Seq::<Seq<u8>>::empty());
}

/// Every name counts and holds no slash.
pub proof fn lemma_names_hold_no_slash(s: Seq<u8>)
    ensures
        forall|i: int|
            0 <= i < names(s).len() ==> counts(#[trigger] names(s)[i]) && !names(s)[i].contains(
                SLASH,
            ),
    decreases s.len(),
{
    let k = position(s, SLASH);
    lemma_position(s, SLASH);
    if k < s.len() {
        lemma_names_hold_no_slash(s.skip(k + 1));
        assert forall|i: int| 0 <= i < names(s).len() implies counts(#[trigger] names(s)[i])
            && !names(s)[i].contains(SLASH) by {
            if counts(s.take(k)) {
                if i > 0 {
                    assert(names(s)[i] == names(s.skip(k + 1))[i - 1]);
                }
            }
        }
    }
}

/// The head of a path does not change when a slash and more follow it.
proof fn lemma_head_concat(a: Seq<u8>, b: Seq<u8>)
    requires
        a.len() > 0,
    ensures
        head(a.push(SLASH) + b) == head(a),
{
    let x = a.push(SLASH) + b;
    let k = position(a, SLASH);
    lemma_position(a, SLASH);
    assert forall|i: int| 0 <= i < k implies x[i] != SLASH by {
        assert(x[i] == a[i]);
    }
    assert(x[k] == SLASH);
    lemma_position_is(x, SLASH, k);
    assert(x.take(k) == a.take(k));
    assert(x[0] == a[0]);
}

/// What follows a slash after a non-empty path adds its names.
pub proof fn lemma_components_concat(a: Seq<u8>, b: Seq<u8>)
    ensures
        a.len() > 0 ==> components(a.push(SLASH) + b) == components(a) + names(b),
        a.len() == 0 ==> components(a.push(SLASH) + b) == seq![root_dir()] + names(b),
{
    lemma_names_concat(a, b);
    if a.len() > 0 {
        lemma_head_concat(a, b);
        assert(head(a) + (names(a) + names(b)) == (head(a) + names(a)) + names(b));
    } else {
        lemma_names_of_piece(a);
        assert(absolute(a.push(SLASH) + b));
        assert(names(a) + names(b) == names(b));
    }
}

/// `rel` seen from `base`: `rel` itself if it is absolute, else both with one
/// slash between them.
pub open spec fn joined(base: Seq<u8>, rel: Seq<u8>) -> Seq<u8> {
    if absolute(rel) {
        rel
    } else if base.len() == 0 || base.last() == SLASH {
        base + rel
    } else {
        base.push(SLASH) + rel
    }
}

/// Joining a relative path to a non-empty one adds the names.
pub proof fn lemma_joined_components(base: Seq<u8>, rel: Seq<u8>)
    requires
        base.len() > 0,
        !absolute(rel),
    ensures
        components(joined(base, rel)) == components(base) + names(rel),
{
    if base.last() == SLASH {
        let u = base.drop_last();
        assert(u.push(SLASH) == base);
        assert(u.push(SLASH) + rel == joined(base, rel));
        lemma_components_concat(u, rel);
        lemma_components_concat(u, Seq::empty());
        assert(u.push(SLASH) + Seq::<u8>::empty() == base);
        lemma_names_of_piece(Seq::empty());
        assert(components(u) + Seq::<Seq<u8>>::empty() == components(u));
        assert(seq![root_dir()] + Seq::<Seq<u8>>::empty() == seq![root_dir()]);
    } else {
        lemma_components_concat(base, rel);
    }
}

/// Appends `rel` to a path.
pub fn push_path(out: &mut Vec<u8>, rel: &[u8])
    ensures
        final(out)@ == joined(old(out)@, rel@),
{
    if rel.len() > 0 && rel[0] == SLASH {
        out.clear();
    } else if out.len() > 0 && out[out.len() - 1] != SLASH {
        out.push(SLASH);
    }
    push_bytes(out, rel);
}

/// Appends bytes.
pub fn push_bytes(out: &mut Vec<u8>, b: &[u8])
    ensures
        final(out)@ == old(out)@ + b@,
{
    let ghost start = out@;
    for i in 0..b.len()
        invariant
            out@ == start + b@.take(i as int),
    {
        out.push(b[i]);
    }
    assert(b@.take(b@.len() as int) == b@);
}

/// The last component, if it is a name.
pub open spec fn file_name(s: Seq<u8>) -> Option<Seq<u8>> {
    let c = components(s);
    if c.len() > 0 && rank(c.last()) == 3 {
        Some(c.last())
    } else {
        None
    }
}

/// A path without the slashes and `/.` that end it.
pub open spec fn trimmed_tail(s: Seq<u8>) -> Seq<u8>
    decreases s.len(),
{
    if s.len() > 1 && (s.last() == SLASH || (s.last() == DOT && s[s.len() - 2] == SLASH)) {
        trimmed_tail(s.drop_last())
    } else {
        s
    }
}

/// Trimming the tail keeps the components and leaves a prefix.
pub proof fn lemma_trimmed_tail(s: Seq<u8>)
    ensures
        components(trimmed_tail(s)) == components(s),
        trimmed_tail(s).len() <= s.len(),
        trimmed_tail(s) == s.take(trimmed_tail(s).len() as int),
        s.len() > 0 ==> trimmed_tail(s).len() > 0,
        ({
            let t = trimmed_tail(s);
            t.len() > 1 ==> t.last() != SLASH && !(t.last() == DOT && t[t.len() - 2] == SLASH)
        }),
    decreases s.len(),
{
    if s.len() > 1 && (s.last() == SLASH || (s.last() == DOT && s[s.len() - 2] == SLASH)) {
        let d = s.drop_last();
        lemma_trimmed_tail(d);
        let t = trimmed_tail(s);
        assert(s.take(t.len() as int) == d.take(t.len() as int));
        lemma_names_of_piece(Seq::empty());
        if s.last() == SLASH {
            assert(s == d.push(SLASH) + Seq::<u8>::empty());
            lemma_components_concat(d, Seq::empty());
            assert(components(d) + Seq::<Seq<u8>>::empty() == components(d));
        } else {
            let u = d.drop_last();
            assert(d == u.push(SLASH) + Seq::<u8>::empty());
            assert(s == u.push(SLASH) + cur_dir());
            lemma_components_concat(u, Seq::empty());
            lemma_components_concat(u, cur_dir());
            assert(!cur_dir().contains(SLASH));
            lemma_names_of_piece(cur_dir());
        }
    } else {
        assert(s.take(s.len() as int) == s);
    }
}

/// The index of the last slash, or -1.
pub open spec fn last_slash(s: Seq<u8>) -> int
    decreases s.len(),
{
    if s.len() == 0 {
        -1
    } else if s.last() == SLASH {
        s.len() - 1
    } else {
        last_slash(s.drop_last())
    }
}

/// What `last_slash` says of the bytes around it.
proof fn lemma_last_slash(s: Seq<u8>)
    ensures
        -1 <= last_slash(s) < s.len(),
        last_slash(s) >= 0 ==> s[last_slash(s)] == SLASH,
        forall|i: int| last_slash(s) < i < s.len() ==> s[i] != SLASH,
    decreases s.len(),
{
    if s.len() > 0 && s.last() != SLASH {
        lemma_last_slash(s.drop_last());
        assert forall|i: int| last_slash(s) < i < s.len() implies s[i] != SLASH by {
            if i < s.len() - 1 {
                assert(s.drop_last()[i] != SLASH);
            }
        }
    }
}

/// The path without its last component, or nothing for the root directory
/// and the empty path.
pub open spec fn parent(s: Seq<u8>) -> Option<Seq<u8>> {
    let t = trimmed_tail(s);
    let k = last_slash(t);
    if t.len() == 0 || t == root_dir() {
        None
    } else if k < 0 {
        Some(Seq::empty())
    } else if k == 0 {
        Some(root_dir())
    } else {
        Some(trimmed_tail(t.take(k)))
    }
}

/// Law: a parent has the components of its child but the last, and is shorter.
pub proof fn law_parent_drops_last_component(s: Seq<u8>)
    ensures
        parent(s) matches Some(p) ==> {
            &&& components(s).len() > 0
            &&& components(p) == components(s).drop_last()
            &&& p.len() < s.len()
        },
        parent(s) is None <==> components(s) == Seq::<Seq<u8>>::empty() || components(s) == seq![
            root_dir(),
        ],
{
    let t = trimmed_tail(s);
    let k = last_slash(t);
    lemma_trimmed_tail(s);
    lemma_last_slash(t);
    lemma_names_of_piece(Seq::empty());
    let none = Seq::<Seq<u8>>::empty();
    if t.len() == 0 {
        assert(t == Seq::<u8>::empty());
        lemma_empty_path();
    } else if t == root_dir() {
        assert(t == Seq::<u8>::empty().push(SLASH) + Seq::<u8>::empty());
        lemma_components_concat(Seq::empty(), Seq::empty());
        assert(components(t) == seq![root_dir()]);
    } else if k < 0 {
        assert(!t.contains(SLASH));
        lemma_names_of_piece(t);
        lemma_position_is(t, SLASH, t.len() as int);
        assert(t.take(t.len() as int) == t);
        assert(components(t) == seq![t]);
        assert(components(t).drop_last() == none);
        lemma_empty_path();
        assert(components(t)[0] != root_dir());
    } else {
        let u = t.take(k);
        let last = t.skip(k + 1);
        assert(t == u.push(SLASH) + last);
        assert forall|i: int| 0 <= i < last.len() implies last[i] != SLASH by {
            assert(last[i] == t[k + 1 + i]);
        }
        assert(!last.contains(SLASH));
        assert(counts(last)) by {
            if last.len() == 0 {
                assert(t.last() == SLASH);
                if t.len() == 1 {
                    assert(t == root_dir());
                }
            } else if last == cur_dir() {
                assert(t.last() == last.last());
            }
        }
        lemma_names_of_piece(last);
        lemma_components_concat(u, last);
        if k == 0 {
            lemma_components_concat(u, Seq::empty());
            assert(u.push(SLASH) + Seq::<u8>::empty() == root_dir());
            assert(components(root_dir()) == seq![root_dir()]);
            assert(components(t) == seq![root_dir(), last]);
            assert(components(t).drop_last() == seq![root_dir()]);
        } else {
            lemma_trimmed_tail(u);
            assert(components(t) == components(u).push(last));
            assert(components(t).drop_last() == components(u));
            if components(t) == seq![root_dir()] {
                assert(components(t).last() == root_dir());
                assert(last.contains(last[0]));
            }
        }
        assert(components(t).len() > 0);
        assert(components(t) != seq![root_dir()]) by {
            if components(t) == seq![root_dir()] {
                assert(components(t).last() == last);
                assert(last[0] == SLASH);
            }
        }
    }
}

/// The path itself, its parent, the parent of that, and so on.
pub open spec fn ancestors(s: Seq<u8>) -> Seq<Seq<u8>>
    decreases s.len(),
{
    match parent(s) {
        Some(p) if p.len() < s.len() => seq![s] + ancestors(p),
        _ => seq![s],
    }
}

/// What is left of a list of components when `.` is dropped and `..` takes
/// away the component before it, but never the root directory.
pub open spec fn resolved(parts: Seq<Seq<u8>>) -> Seq<Seq<u8>>
    decreases parts.len(),
{
    if parts.len() == 0 {
        Seq::empty()
    } else {
        let before = resolved(parts.drop_last());
        if parts.last() == cur_dir() {
            before
        } else if parts.last() != parent_dir() {
            before.push(parts.last())
        } else if before.len() == 0 || before.last() == root_dir() {
            before
        } else {
            before.drop_last()
        }
    }
}

/// The path that a list of components makes when they are joined in order.
pub open spec fn rendered(parts: Seq<Seq<u8>>) -> Seq<u8>
    decreases parts.len(),
{
    if parts.len() == 0 {
        Seq::empty()
    } else {
        joined(rendered(parts.drop_last()), parts.last())
    }
}

/// A path with `.` and `..` resolved by the text alone.
pub open spec fn normalized(s: Seq<u8>) -> Seq<u8> {
    rendered(resolved(components(s)))
}

/// `value` seen from `base`, with `.` and `..` resolved.
pub open spec fn absolutized(base: Seq<u8>, value: Seq<u8>) -> Seq<u8> {
    normalized(joined(base, value))
}

/// Whether a list of components is one that resolving leaves unchanged: names
/// only, after the root directory at most.
pub open spec fn plain(parts: Seq<Seq<u8>>) -> bool {
    forall|i: int|
        0 <= i < parts.len() ==> {
            ||| (i == 0 && #[trigger] parts[i] == root_dir())
            ||| (counts(parts[i]) && parts[i] != parent_dir() && !parts[i].contains(SLASH))
        }
}

/// Resolving leaves a plain list of components.
proof fn lemma_resolved_plain(s: Seq<u8>, n: int)
    requires
        0 <= n <= components(s).len(),
    ensures
        plain(resolved(components(s).take(n))),
        resolved(components(s).take(n)).len() <= n,
        n > 0 && absolute(s) ==> resolved(components(s).take(n)).len() > 0 && resolved(
            components(s).take(n),
        )[0] == root_dir(),
    decreases n,
{
    let c = components(s);
    if n > 0 {
        lemma_resolved_plain(s, n - 1);
        lemma_names_hold_no_slash(s);
        let part = c.take(n);
        assert(part.drop_last() == c.take(n - 1));
        let before = resolved(part.drop_last());
        let last = c[n - 1];
        assert(part.last() == last);
        if n - 1 >= head(s).len() {
            assert(last == names(s)[n - 1 - head(s).len()]);
            assert(counts(last) && !last.contains(SLASH));
            if last == root_dir() {
                assert(last[0] == SLASH);
            }
        } else {
            assert(last == head(s)[0]);
            assert(n == 1);
        }
        let after = resolved(part);
        assert forall|i: int| 0 <= i < after.len() implies {
            ||| (i == 0 && #[trigger] after[i] == root_dir())
            ||| (counts(after[i]) && after[i] != parent_dir() && !after[i].contains(SLASH))
        } by {
            if i < before.len() {
                assert(after[i] == before[i]);
            }
        }
        if absolute(s) && n == 1 {
            assert(c.take(0).len() == 0);
            assert(last == root_dir());
            assert(before.len() == 0);
            assert(root_dir() != cur_dir() && root_dir() != parent_dir()) by {
                assert(root_dir()[0] != cur_dir()[0]);
                assert(root_dir().len() != parent_dir().len());
            }
            assert(after =~= seq![root_dir()]);
        } else if absolute(s) && before.len() == 1 {
            assert(before.last() == root_dir());
        }
    }
}

/// A plain list of components is resolved already.
proof fn lemma_plain_is_resolved(parts: Seq<Seq<u8>>)
    requires
        plain(parts),
    ensures
        resolved(parts) == parts,
    decreases parts.len(),
{
    if parts.len() > 0 {
        let d = parts.drop_last();
        assert forall|i: int| 0 <= i < d.len() implies {
            ||| (i == 0 && #[trigger] d[i] == root_dir())
            ||| (counts(d[i]) && d[i] != parent_dir() && !d[i].contains(SLASH))
        } by {
            assert(d[i] == parts[i]);
        }
        lemma_plain_is_resolved(d);
        let n = parts.len() - 1;
        assert(parts.last() == parts[n]);
        assert(root_dir() != cur_dir() && root_dir() != parent_dir()) by {
            assert(root_dir()[0] != cur_dir()[0]);
            assert(root_dir().len() != parent_dir().len());
        }
        assert(d.push(parts.last()) == parts);
    }
}

/// A path made of a plain list of components has those components.
proof fn lemma_rendered_components(parts: Seq<Seq<u8>>)
    requires
        plain(parts),
    ensures
        components(rendered(parts)) == parts,
        parts.len() > 0 ==> rendered(parts).len() > 0,
    decreases parts.len(),
{
    if parts.len() == 0 {
        lemma_empty_path();
        assert(parts =~= Seq::<Seq<u8>>::empty());
    } else {
        let d = parts.drop_last();
        let last = parts.last();
        let n = parts.len() - 1;
        assert(last == parts[n]);
        assert forall|i: int| 0 <= i < d.len() implies {
            ||| (i == 0 && #[trigger] d[i] == root_dir())
            ||| (counts(d[i]) && d[i] != parent_dir() && !d[i].contains(SLASH))
        } by {
            assert(d[i] == parts[i]);
        }
        lemma_rendered_components(d);
        let p = rendered(d);
        if last == root_dir() && n == 0 {
            lemma_components_concat(Seq::empty(), Seq::empty());
            lemma_names_of_piece(Seq::empty());
            assert(Seq::<u8>::empty().push(SLASH) + Seq::<u8>::empty() == root_dir());
            assert(joined(p, last) == root_dir());
            assert(components(root_dir()) == seq![root_dir()]);
            assert(parts == seq![root_dir()]);
        } else {
            assert(!absolute(last)) by {
                if absolute(last) {
                    assert(last.contains(last[0]));
                }
            }
            lemma_names_of_piece(last);
            if n > 0 {
                lemma_joined_components(p, last);
                assert(d + seq![last] == parts);
            } else {
                assert(p =~= Seq::<u8>::empty());
                assert(joined(p, last) =~= last);
                assert forall|i: int| 0 <= i < last.len() implies last[i] != SLASH by {
                    assert(last.contains(last[i]));
                }
                lemma_position_is(last, SLASH, last.len() as int);
                assert(last.take(last.len() as int) == last);
                assert(head(last) =~= Seq::<Seq<u8>>::empty());
                assert(parts =~= seq![last]);
                assert(components(last) =~= parts);
            }
        }
    }
}

/// Law: a normalized path has the resolved components, holds neither `.` nor
/// `..`, and is absolute where the path was; normalizing again changes nothing.
pub proof fn law_normalized(s: Seq<u8>)
    ensures
        components(normalized(s)) == resolved(components(s)),
        plain(components(normalized(s))),
        absolute(s) ==> absolute(normalized(s)),
        normalized(normalized(s)) == normalized(s),
{
    let c = components(s);
    assert(c.take(c.len() as int) == c);
    lemma_resolved_plain(s, c.len() as int);
    let r = resolved(c);
    lemma_rendered_components(r);
    lemma_plain_is_resolved(r);
    if absolute(s) {
        let x = rendered(r);
        assert(components(x)[0] == root_dir());
        if !absolute(x) {
            lemma_names_hold_no_slash(x);
            if head(x).len() == 0 {
                assert(components(x)[0] == names(x)[0]);
                assert(root_dir().contains(root_dir()[0]));
            } else {
                assert(cur_dir()[0] == DOT);
                assert(root_dir()[0] == SLASH);
            }
        }
    }
}

/// The text of a path after its first `n` names, up to its end.
pub open spec fn after_names(s: Seq<u8>, n: nat) -> Seq<u8>
    decreases s.len(),
{
    let k = position(s, SLASH);
    if !(0 <= k < s.len()) {
        if n == 0 && counts(s) {
            s
        } else {
            Seq::empty()
        }
    } else if !counts(s.take(k)) {
        after_names(s.skip(k + 1), n)
    } else if n == 0 {
        s
    } else {
        after_names(s.skip(k + 1), (n - 1) as nat)
    }
}

/// Whether the components of `base` open the path `s`.
pub open spec fn opens(base: Seq<u8>, s: Seq<u8>) -> bool {
    components(base).is_prefix_of(components(s))
}

/// The text of a path after the components of `base`, if those open it.
pub open spec fn stripped(s: Seq<u8>, base: Seq<u8>) -> Option<Seq<u8>> {
    if !opens(base, s) {
        None
    } else if components(base).len() == 0 {
        Some(trimmed_tail(s))
    } else {
        Some(trimmed_tail(after_names(s, (components(base).len() - head(s).len()) as nat)))
    }
}

/// The text after `n` names holds the names after those, and starts with one.
proof fn lemma_after_names(s: Seq<u8>, n: nat)
    ensures
        n <= names(s).len() ==> names(after_names(s, n)) == names(s).skip(n as int),
        head(after_names(s, n)) == Seq::<Seq<u8>>::empty(),
    decreases s.len(),
{
    let k = position(s, SLASH);
    lemma_position(s, SLASH);
    lemma_empty_path();
    lemma_names_of_piece(Seq::empty());
    assert(head(Seq::empty()) =~= Seq::<Seq<u8>>::empty());
    if k >= s.len() {
        if counts(s) {
            assert(s.take(k) == s);
            assert(n == 1 ==> names(s).skip(1) =~= Seq::<Seq<u8>>::empty());
        }
        assert(n == 0 ==> names(s).skip(0) =~= names(s));
    } else if !counts(s.take(k)) {
        lemma_after_names(s.skip(k + 1), n);
    } else if n == 0 {
        assert(names(s).skip(0) =~= names(s));
        assert(s[0] != SLASH) by {
            if k == 0 {
                assert(s.take(0).len() == 0);
            }
        }
    } else {
        lemma_after_names(s.skip(k + 1), (n - 1) as nat);
        if n <= names(s).len() {
            assert(names(s).skip(n as int) =~= names(s.skip(k + 1)).skip(n - 1));
        }
    }
}

/// Law: what is left after stripping a non-empty prefix, joined to that
/// prefix, is the path again.
pub proof fn law_stripped(s: Seq<u8>, base: Seq<u8>)
    requires
        components(base).len() > 0,
        opens(base, s),
    ensures
        stripped(s, base) matches Some(r) ==> {
            &&& same_path(joined(base, r), s)
            &&& components(r) == components(s).skip(components(base).len() as int)
        },
{
    let c = components(s);
    let n = components(base).len();
    let h = head(s).len();
    let m = (n - h) as nat;
    let x = after_names(s, m);
    let r = trimmed_tail(x);
    lemma_after_names(s, m);
    lemma_trimmed_tail(x);
    lemma_empty_path();
    assert(names(x) =~= c.skip(n as int));
    assert(components(x) =~= names(x));
    if r.len() > 0 {
        assert(r[0] == x[0]);
    }
    assert(head(r) =~= Seq::<Seq<u8>>::empty()) by {
        lemma_names_hold_no_slash(x);
        if r.len() > 0 && head(r).len() > 0 {
            assert(components(r)[0] == head(r)[0]);
            assert(counts(names(x)[0]));
        }
    }
    assert(names(r) =~= components(r));
    assert(base.len() > 0) by {
        if base.len() == 0 {
            assert(base =~= Seq::<u8>::empty());
        }
    }
    lemma_joined_components(base, r);
    assert(components(base) =~= c.take(n as int));
    assert(c.take(n as int) + c.skip(n as int) =~= c);
}

/// Whether a stretch of bytes can be the name of a file: it is not empty, holds
/// no slash, and is neither `.` nor `..`.
pub open spec fn is_name(n: Seq<u8>) -> bool {
    n.len() > 0 && !n.contains(SLASH) && n != seq![0x2eu8] && n != seq![0x2eu8, 0x2eu8]
}

/// Law: a path that is not empty has a component.
pub proof fn law_something_is_there(s: Seq<u8>)
    requires
        s.len() > 0,
    ensures
        components(s).len() > 0,
{
    let k = position(s, SLASH);
    lemma_position(s, SLASH);
    if !absolute(s) {
        assert(k > 0);
        if k >= s.len() {
            assert(s.take(k) =~= s);
        }
        if !counts(s.take(k)) {
            assert(first_piece(s) == cur_dir());
        }
    }
}

/// Law: a name that is joined to a path is its last component, and what comes
/// before it is the path.
pub proof fn law_joined_name(dir: Seq<u8>, name: Seq<u8>)
    requires
        dir.len() > 0,
        is_name(name),
    ensures
        components(joined(dir, name)) == components(dir).push(name),
        file_name(joined(dir, name)) == Some(name),
        parent(joined(dir, name)) matches Some(p) && same_path(p, dir),
{
    assert(name.contains(name[0]));
    assert(name != cur_dir());
    assert(name != parent_dir());
    assert(name != root_dir()) by {
        assert(root_dir()[0] == SLASH);
    }
    lemma_joined_components(dir, name);
    lemma_names_of_piece(name);
    let c = components(joined(dir, name));
    assert(c =~= components(dir).push(name));
    assert(c.last() == name);
    law_parent_drops_last_component(joined(dir, name));
    assert(c.drop_last() =~= components(dir));
    if c == seq![root_dir()] {
        assert(c.last() == root_dir());
    }
}

/// Law: two names in one directory make one path exactly if they are one name.
pub proof fn law_names_tell_paths_apart(dir: Seq<u8>, m: Seq<u8>, n: Seq<u8>)
    requires
        dir.len() > 0,
        is_name(m),
        is_name(n),
    ensures
        same_path(joined(dir, m), joined(dir, n)) <==> m == n,
        !same_path(joined(dir, m), dir),
{
    law_joined_name(dir, m);
    law_joined_name(dir, n);
    assert(components(dir).push(m).last() == m);
    assert(components(dir).push(n).last() == n);
    assert(components(dir).push(m).len() != components(dir).len());
}

/// Law: slashes that repeat or end a path, and a `.` in it, make no other path.
pub proof fn law_slashes_and_dots_do_not_count(a: Seq<u8>, b: Seq<u8>)
    requires
        a.len() > 0,
    ensures
        same_path(a.push(SLASH), a),
        same_path(a.push(SLASH) + (seq![SLASH] + b), a.push(SLASH) + b),
        same_path(a.push(SLASH) + (seq![DOT, SLASH] + b), a.push(SLASH) + b),
{
    let none = Seq::<u8>::empty();
    lemma_names_of_piece(none);
    lemma_components_concat(a, none);
    assert(a.push(SLASH) + none =~= a.push(SLASH));
    assert(components(a) + Seq::<Seq<u8>>::empty() =~= components(a));
    lemma_components_concat(a, b);
    lemma_components_concat(a, seq![SLASH] + b);
    lemma_names_concat(none, b);
    assert(none.push(SLASH) + b =~= seq![SLASH] + b);
    assert(names(none) + names(b) =~= names(b));
    lemma_components_concat(a, seq![DOT, SLASH] + b);
    lemma_names_concat(cur_dir(), b);
    assert(cur_dir().push(SLASH) + b =~= seq![DOT, SLASH] + b);
    assert(!cur_dir().contains(SLASH));
    lemma_names_of_piece(cur_dir());
}

/// Law: a path comes before what is below it, and in one directory the names
/// decide, by their first byte that differs.
pub proof fn law_path_order_of_names(dir: Seq<u8>, m: Seq<u8>, n: Seq<u8>, k: int)
    requires
        dir.len() > 0,
        is_name(m),
        is_name(n),
        0 <= k <= m.len(),
        k <= n.len(),
        m.take(k) == n.take(k),
    ensures
        path_lt(dir, joined(dir, n)),
        !path_lt(joined(dir, n), dir),
        k < m.len() && k < n.len() && m[k] != n[k] ==> (path_lt(joined(dir, m), joined(dir, n))
            <==> m[k] < n[k]),
        k == m.len() && k < n.len() ==> path_lt(joined(dir, m), joined(dir, n)) && !path_lt(
            joined(dir, n),
            joined(dir, m),
        ),
{
    let d = components(dir);
    let a = components(joined(dir, m));
    let b = components(joined(dir, n));
    law_joined_name(dir, m);
    law_joined_name(dir, n);
    let p = d.len() as int;
    let lt = component_order();
    assert(d.take(p) =~= d && a.take(p) =~= d && b.take(p) =~= d);
    law_lex(lt, d, b, p);
    law_lex(lt, b, d, p);
    law_lex(lt, a, b, p);
    law_lex(lt, b, a, p);
    law_lex(byte_order(), m, n, k);
    law_lex(byte_order(), n, m, k);
    assert(m != root_dir() && n != root_dir()) by {
        assert(root_dir()[0] == SLASH);
        assert(m.contains(m[0]) && n.contains(n[0]));
    }
    assert(rank(m) == 3 && rank(n) == 3);
    assert(a[p] == m && b[p] == n);
}

/// Law: an absolute path comes before a relative one, and `..` before names.
pub proof fn law_path_order_of_kinds(a: Seq<u8>, b: Seq<u8>, dir: Seq<u8>, n: Seq<u8>)
    requires
        absolute(a),
        b.len() > 0,
        !absolute(b),
        dir.len() > 0,
        is_name(n),
    ensures
        path_lt(a, b),
        path_lt(joined(dir, seq![DOT, DOT]), joined(dir, n)),
{
    let x = components(a);
    let y = components(b);
    law_something_is_there(b);
    assert(x[0] == root_dir());
    lemma_names_hold_no_slash(b);
    assert(y[0] != root_dir()) by {
        assert(root_dir()[0] == SLASH);
        if head(b).len() == 0 {
            assert(y[0] == names(b)[0]);
            assert(root_dir().contains(root_dir()[0]));
        } else {
            assert(cur_dir()[0] == DOT);
        }
    }
    assert(x.take(0) =~= y.take(0));
    law_lex(component_order(), x, y, 0);
    let up = seq![DOT, DOT];
    let d = components(dir);
    let p = d.len() as int;
    assert(!up.contains(SLASH));
    assert(up != cur_dir()) by {
        assert(up.len() == 2);
    }
    lemma_names_of_piece(up);
    lemma_joined_components(dir, up);
    law_joined_name(dir, n);
    let s = components(joined(dir, up));
    let t = components(joined(dir, n));
    assert(s =~= d.push(up));
    assert(s.take(p) =~= d && t.take(p) =~= d);
    law_lex(component_order(), s, t, p);
    assert(n != root_dir()) by {
        assert(root_dir()[0] == SLASH);
        assert(n.contains(n[0]));
    }
    assert(up == parent_dir());
    assert(up != root_dir()) by {
        assert(root_dir().len() == 1);
    }
    assert(s[p] == up && t[p] == n);
}

/// Law: the ancestors of a path are the path, its parent, and so on up to a path
/// without one; each has one component less than the one before it.
pub proof fn law_ancestors(s: Seq<u8>)
    ensures
        ancestors(s).len() > 0,
        ancestors(s)[0] == s,
        parent(ancestors(s).last()) is None,
        forall|i: int|
            0 <= i < ancestors(s).len() - 1 ==> parent(#[trigger] ancestors(s)[i]) == Some(
                ancestors(s)[i + 1],
            ),
        forall|i: int|
            0 <= i < ancestors(s).len() ==> components(#[trigger] ancestors(s)[i]) == components(
                s,
            ).take(components(s).len() - i),
    decreases s.len(),
{
    law_parent_drops_last_component(s);
    let all = ancestors(s);
    let n = components(s).len() as int;
    assert(components(s).take(n) =~= components(s));
    if let Some(p) = parent(s) {
        law_ancestors(p);
        let rest = ancestors(p);
        assert(all =~= seq![s] + rest);
        assert(all.last() == rest.last());
        assert forall|i: int| 0 <= i < all.len() - 1 implies parent(#[trigger] all[i]) == Some(
            all[i + 1],
        ) by {
            if i > 0 {
                assert(all[i] == rest[i - 1]);
                assert(all[i + 1] == rest[i]);
            }
        }
        assert forall|i: int| 0 <= i < all.len() implies components(#[trigger] all[i])
            == components(s).take(n - i) by {
            if i > 0 {
                assert(all[i] == rest[i - 1]);
                lemma_ancestor_depth(p, i - 1);
                assert(components(p).take(components(p).len() - (i - 1)) =~= components(s).take(
                    n - i,
                ));
            }
        }
    }
}

/// An ancestor stands no further up than there are components.
proof fn lemma_ancestor_depth(s: Seq<u8>, i: int)
    requires
        0 <= i < ancestors(s).len(),
    ensures
        i <= components(s).len(),
    decreases s.len(),
{
    law_parent_drops_last_component(s);
    if let Some(p) = parent(s) {
        if i > 0 {
            assert(ancestors(s) =~= seq![s] + ancestors(p));
            lemma_ancestor_depth(p, i - 1);
        }
    }
}

/// Law: a path made of names, below the root directory or not, is normalized as
/// it is.
pub proof fn law_plain_path_stays(s: Seq<u8>)
    requires
        plain(components(s)),
    ensures
        same_path(normalized(s), s),
{
    law_normalized(s);
    lemma_plain_is_resolved(components(s));
}

/// Law: a name and the `..` after it cancel each other, and a `.` changes
/// nothing.
pub proof fn law_dots_are_resolved(s: Seq<u8>, n: Seq<u8>)
    requires
        s.len() > 0,
        is_name(n),
    ensures
        same_path(normalized(joined(joined(s, n), seq![DOT, DOT])), normalized(s)),
        same_path(normalized(joined(s, seq![DOT])), normalized(s)),
{
    let up = seq![DOT, DOT];
    let inner = joined(s, n);
    law_joined_name(s, n);
    assert(n.contains(n[0]));
    assert(inner.len() > 0);
    assert(!up.contains(SLASH));
    assert(up != cur_dir()) by {
        assert(up.len() == 2);
    }
    lemma_names_of_piece(up);
    lemma_joined_components(inner, up);
    let c = components(s);
    let x = components(joined(inner, up));
    assert(x =~= c.push(n).push(up));
    assert(x.drop_last() =~= c.push(n));
    assert(c.push(n).drop_last() =~= c);
    assert(n != root_dir()) by {
        assert(root_dir()[0] == SLASH);
    }
    let r = resolved(c);
    assert(resolved(c.push(n)) == r.push(n));
    assert(up == parent_dir());
    assert(resolved(x) =~= r);
    law_normalized(s);
    law_normalized(joined(inner, up));
    let dot = seq![DOT];
    assert(dot == cur_dir());
    assert(!dot.contains(SLASH));
    lemma_names_of_piece(dot);
    lemma_joined_components(s, dot);
    assert(components(joined(s, dot)) =~= c);
    law_normalized(joined(s, dot));
}

/// Law: `..` does not lead out of the root directory.
pub proof fn law_root_has_no_parent(s: Seq<u8>)
    requires
        absolute(s),
    ensures
        components(normalized(s)).len() > 0,
        components(normalized(s))[0] == seq![SLASH],
        same_path(normalized(seq![SLASH, DOT, DOT]), seq![SLASH]),
{
    let c = components(s);
    assert(c.take(c.len() as int) =~= c);
    assert(c.len() > 0);
    lemma_resolved_plain(s, c.len() as int);
    law_normalized(s);
    let none = Seq::<u8>::empty();
    let up = seq![DOT, DOT];
    let x = seq![SLASH, DOT, DOT];
    assert(none.push(SLASH) + up =~= x);
    lemma_components_concat(none, up);
    assert(!up.contains(SLASH));
    assert(up != cur_dir()) by {
        assert(up.len() == 2);
    }
    lemma_names_of_piece(up);
    assert(components(x) =~= seq![root_dir(), up]);
    lemma_names_of_piece(none);
    lemma_components_concat(none, none);
    assert(none.push(SLASH) + none =~= seq![SLASH]);
    assert(components(seq![SLASH]) =~= seq![root_dir()]);
    assert(components(x).drop_last() =~= seq![root_dir()]);
    assert(seq![root_dir()].drop_last() =~= Seq::<Seq<u8>>::empty());
    assert(root_dir() != cur_dir() && root_dir() != parent_dir()) by {
        assert(root_dir()[0] != cur_dir()[0]);
        assert(root_dir().len() != parent_dir().len());
    }
    reveal_with_fuel(resolved, 3);
    assert(resolved(seq![root_dir()]) =~= seq![root_dir()]);
    assert(up == parent_dir());
    assert(resolved(components(x)) =~= seq![root_dir()]);
    law_normalized(x);
}

/// Law: a value that is absolute does not depend on where it is seen from, and
/// one that is not stands below it.
pub proof fn law_absolutized(base: Seq<u8>, other: Seq<u8>, value: Seq<u8>)
    ensures
        absolute(value) ==> absolutized(base, value) == absolutized(other, value),
        absolute(value) && plain(components(value)) ==> same_path(absolutized(base, value), value),
        base.len() > 0 && is_name(value) && plain(components(base)) ==> components(
            absolutized(base, value),
        ) == components(base).push(value),
{
    if absolute(value) && plain(components(value)) {
        law_plain_path_stays(value);
    }
    if base.len() > 0 && is_name(value) && plain(components(base)) {
        law_joined_name(base, value);
        let c = components(joined(base, value));
        assert(value != cur_dir() && value != parent_dir());
        assert forall|i: int| 0 <= i < c.len() implies {
            ||| (i == 0 && #[trigger] c[i] == root_dir())
            ||| (counts(c[i]) && c[i] != parent_dir() && !c[i].contains(SLASH))
        } by {
            if i < components(base).len() {
                assert(c[i] == components(base)[i]);
            }
        }
        law_plain_path_stays(joined(base, value));
    }
}

/// Law: a path below another one is that one's path and what was stripped; a
/// path that is not below it is not stripped.
pub proof fn law_strip_what_was_joined(base: Seq<u8>, name: Seq<u8>, other: Seq<u8>)
    requires
        base.len() > 0,
        is_name(name),
        is_name(other),
        name != other,
    ensures
        stripped(joined(base, name), base) matches Some(r) && components(r) == seq![name],
        stripped(base, base) matches Some(r) && components(r) == Seq::<Seq<u8>>::empty(),
        stripped(joined(base, name), joined(base, other)) is None,
        stripped(base, joined(base, name)) is None,
{
    law_something_is_there(base);
    law_joined_name(base, name);
    law_joined_name(base, other);
    let c = components(base);
    let x = joined(base, name);
    assert(c.is_prefix_of(components(x))) by {
        assert(components(x).subrange(0, c.len() as int) =~= c);
    }
    law_stripped(x, base);
    assert(components(x).skip(c.len() as int) =~= seq![name]);
    assert(c.is_prefix_of(c)) by {
        assert(c.subrange(0, c.len() as int) =~= c);
    }
    law_stripped(base, base);
    assert(c.skip(c.len() as int) =~= Seq::<Seq<u8>>::empty());
    let y = components(joined(base, other));
    if y.is_prefix_of(components(x)) {
        assert(y =~= components(x).subrange(0, y.len() as int));
        assert(y.last() == other);
        assert(components(x)[c.len() as int] == name);
    }
}

/// Law: paths that are made of the same names, in order, below the root directory
/// or not, have those components.
pub proof fn law_rendered(parts: Seq<Seq<u8>>)
    requires
        plain(parts),
    ensures
        components(rendered(parts)) == parts,
{
    lemma_rendered_components(parts);
}

/// Law: a name below a directory is what is left of its path without the directory,
/// byte for byte, and nothing is left of the directory itself.
pub proof fn law_strip_name(base: Seq<u8>, name: Seq<u8>)
    requires
        base.len() > 0,
        is_name(name),
    ensures
        stripped(joined(base, name), base) == Some(name),
        stripped(base, base) == Some(Seq::<u8>::empty()),
{
    let x = joined(base, name);
    let c = components(base);
    law_something_is_there(base);
    law_joined_name(base, name);
    assert(name.contains(name[0]));
    assert(c.is_prefix_of(components(x))) by {
        assert(components(x).subrange(0, c.len() as int) =~= c);
    }
    assert(c.is_prefix_of(c)) by {
        assert(c.subrange(0, c.len() as int) =~= c);
    }
    lemma_head_joined(base, name);
    let m = (c.len() - head(base).len()) as nat;
    assert(m == names(base).len());
    if base.last() == SLASH {
        let u = base.drop_last();
        assert(u.push(SLASH) =~= base);
        lemma_names_concat(u, Seq::empty());
        lemma_names_of_piece(Seq::empty());
        assert(u.push(SLASH) + Seq::<u8>::empty() =~= base);
        assert(names(u) + Seq::<Seq<u8>>::empty() =~= names(u));
        assert(x =~= u.push(SLASH) + name);
        lemma_after_all_names(u, name);
    } else {
        assert(x =~= base.push(SLASH) + name);
        lemma_after_all_names(base, name);
    }
    lemma_name_tail(name);
    lemma_after_end(base);
}

/// A name joined to a path does not change how it starts.
proof fn lemma_head_joined(base: Seq<u8>, name: Seq<u8>)
    requires
        base.len() > 0,
        is_name(name),
    ensures
        head(joined(base, name)) == head(base),
{
    assert(name.contains(name[0]));
    if base.last() == SLASH {
        let u = base.drop_last();
        assert(u.push(SLASH) =~= base);
        assert(joined(base, name) =~= u.push(SLASH) + name);
        if u.len() > 0 {
            lemma_head_concat(u, name);
            lemma_head_concat(u, Seq::empty());
            assert(u.push(SLASH) + Seq::<u8>::empty() =~= base);
        } else {
            assert(absolute(base) && absolute(joined(base, name)));
        }
    } else {
        lemma_head_concat(base, name);
    }
}

/// After all names of a path comes what follows it.
proof fn lemma_after_all_names(a: Seq<u8>, name: Seq<u8>)
    requires
        is_name(name),
    ensures
        after_names(a.push(SLASH) + name, names(a).len()) == name,
    decreases a.len(),
{
    let x = a.push(SLASH) + name;
    let k = position(a, SLASH);
    lemma_position(a, SLASH);
    assert forall|i: int| 0 <= i < k implies x[i] != SLASH by {
        assert(x[i] == a[i]);
    }
    assert(x[k] == SLASH);
    lemma_position_is(x, SLASH, k);
    assert(x.take(k) =~= a.take(k));
    assert(name != cur_dir());
    assert forall|i: int| 0 <= i < name.len() implies name[i] != SLASH by {
        assert(name.contains(name[i]));
    }
    lemma_position_is(name, SLASH, name.len() as int);
    if k < a.len() {
        lemma_after_all_names(a.skip(k + 1), name);
        assert(x.skip(k + 1) =~= a.skip(k + 1).push(SLASH) + name);
    } else {
        assert(a.take(k) =~= a);
        assert(x.skip(k + 1) =~= name);
        assert(counts(name));
        assert(after_names(name, 0) == name);
    }
}

/// After all names of a path comes nothing.
proof fn lemma_after_end(a: Seq<u8>)
    ensures
        after_names(a, names(a).len()) == Seq::<u8>::empty(),
    decreases a.len(),
{
    let k = position(a, SLASH);
    lemma_position(a, SLASH);
    if k < a.len() {
        lemma_after_end(a.skip(k + 1));
    } else {
        assert(a.take(k) =~= a);
    }
}

/// A name has no tail to trim.
proof fn lemma_name_tail(name: Seq<u8>)
    requires
        is_name(name),
    ensures
        trimmed_tail(name) == name,
        trimmed_tail(Seq::<u8>::empty()) == Seq::<u8>::empty(),
{
    assert forall|i: int| 0 <= i < name.len() implies name[i] != SLASH by {
        assert(name.contains(name[i]));
    }
}

} // verus!
