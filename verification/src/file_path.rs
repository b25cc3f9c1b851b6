//! An owned path and what can be asked of it.
use vstd::prelude::*;
use vstd::slice::{slice_subrange, slice_to_vec};
use vstd::utf8::{decode_utf8, encode_utf8, valid_utf8};

use crate::path::{
    absolute, absolutized, after_names, ancestors, component_order, component_spans, components, cover,
    cur_dir, file_name, find_slash, head, joined, names, last_slash, normalized, parent, parent_dir, path_lt,
    push_path, rank, rendered, resolved, root_dir, same_path, stripped, trimmed_tail, Span, DOT,
    SLASH,
};
use crate::seqs::lex_lt;

verus! {

/// `String::from_utf8_lossy`: the text that bytes hold, where stretches that
/// are not UTF-8 read as replacement characters. Only what it returns on UTF-8
/// is said here; its choice of replacements is named, not described.
pub uninterp spec fn lossy_text(b: Seq<u8>) -> Seq<char>;

/// `String::from_utf8_lossy`, made into an owned string. On UTF-8 the text is
/// the decoding of the bytes.
#[verifier::external_body]
fn from_utf8_lossy(b: &[u8]) -> (s: String)
    ensures
        s@ == lossy_text(b@),
        valid_utf8(b@) ==> s@ == decode_utf8(b@),
{
    String::from_utf8_lossy(b).into_owned()
}

/// The text that bytes hold, for people to read.
pub fn text_of(b: &[u8]) -> (s: String)
    ensures
        s@ == lossy_text(b@),
        valid_utf8(b@) ==> s@ == decode_utf8(b@),
{
    from_utf8_lossy(b)
}

/// Whether two stretches of bytes are equal.
pub fn same_bytes(a: &[u8], b: &[u8]) -> (r: bool)
    ensures
        r == (a@ == b@),
{
    if a.len() != b.len() {
        return false;
    }
    for i in 0..a.len()
        invariant
            a@.len() == b@.len(),
            forall|j: int| 0 <= j < i ==> a@[j] == b@[j],
    {
        if a[i] != b[i] {
            return false;
        }
    }
    assert(a@ =~= b@);
    true
}

/// Whether `a` comes before `b`, byte by byte.
fn bytes_before(a: &[u8], b: &[u8]) -> (r: bool)
    ensures
        r == lex_lt(crate::path::byte_order(), a@, b@),
{
    let mut i: usize = 0;
    assert(a@.skip(0) == a@ && b@.skip(0) == b@);
    while i < a.len() && i < b.len() && a[i] == b[i]
        invariant
            i <= a@.len(),
            i <= b@.len(),
            lex_lt(crate::path::byte_order(), a@, b@) == lex_lt(
                crate::path::byte_order(),
                a@.skip(i as int),
                b@.skip(i as int),
            ),
        decreases a@.len() - i,
    {
        assert(a@.skip(i as int).skip(1) == a@.skip(i + 1));
        assert(b@.skip(i as int).skip(1) == b@.skip(i + 1));
        i += 1;
    }
    if i >= b.len() {
        false
    } else if i >= a.len() {
        true
    } else {
        a[i] < b[i]
    }
}

/// The rank of a component.
fn rank_of(c: &[u8]) -> (r: u8)
    ensures
        r == rank(c@),
{
    if c.len() == 1 && c[0] == SLASH {
        assert(c@ =~= root_dir());
        0
    } else if c.len() == 1 && c[0] == DOT {
        assert(c@ =~= cur_dir());
        assert(c@[0] != root_dir()[0]);
        1
    } else if c.len() == 2 && c[0] == DOT && c[1] == DOT {
        assert(c@ =~= parent_dir());
        2
    } else {
        assert(c@ == root_dir() ==> c@.len() == 1 && c@[0] == SLASH);
        assert(c@ == cur_dir() ==> c@.len() == 1 && c@[0] == DOT);
        assert(c@ == parent_dir() ==> c@.len() == 2 && c@[0] == DOT && c@[1] == DOT);
        3
    }
}

/// Whether component `a` comes before component `b`.
fn component_before(a: &[u8], b: &[u8]) -> (r: bool)
    ensures
        r == component_order()(a@, b@),
{
    let ra: u8 = rank_of(a);
    let rb: u8 = rank_of(b);
    ra < rb || (ra == rb && bytes_before(a, b))
}

/// A path of the file system.
#[derive(Debug)]
pub struct FilePath {
    bytes: Vec<u8>,
}

impl View for FilePath {
    type V = Seq<u8>;

    closed spec fn view(&self) -> Seq<u8> {
        self.bytes@
    }
}

impl Clone for FilePath {
    fn clone(&self) -> (r: Self)
        ensures
            r@ == self@,
    {
        FilePath { bytes: slice_to_vec(self.bytes.as_slice()) }
    }
}

impl vstd::std_specs::cmp::PartialEqSpecImpl for FilePath {
    open spec fn obeys_eq_spec() -> bool {
        true
    }

    open spec fn eq_spec(&self, other: &FilePath) -> bool {
        same_path(self@, other@)
    }
}

impl PartialEq for FilePath {
    fn eq(&self, other: &FilePath) -> (r: bool) {
        self.same(other)
    }
}

impl Eq for FilePath {

}

impl FilePath {
    /// The path with the given bytes.
    pub fn from_bytes(bytes: Vec<u8>) -> (r: FilePath)
        ensures
            r@ == bytes@,
    {
        FilePath { bytes }
    }

    /// The path that a text spells.
    pub fn new(text: &str) -> (r: FilePath)
        ensures
            r@ == encode_utf8(text@),
    {
        FilePath { bytes: slice_to_vec(text.as_bytes()) }
    }

    /// The bytes of the path.
    pub fn as_bytes(&self) -> (b: &[u8])
        ensures
            b@ == self@,
    {
        self.bytes.as_slice()
    }

    /// Whether the path has no bytes.
    pub fn is_empty(&self) -> (b: bool)
        ensures
            b == (self@.len() == 0),
    {
        self.bytes.len() == 0
    }

    /// Whether the path starts at the root directory.
    pub fn is_absolute(&self) -> (b: bool)
        ensures
            b == absolute(self@),
    {
        self.bytes.len() > 0 && self.bytes[0] == SLASH
    }

    /// Whether two paths have the same components.
    pub fn same(&self, other: &FilePath) -> (r: bool)
        ensures
            r == same_path(self@, other@),
    {
        let a = self.bytes.as_slice();
        let b = other.bytes.as_slice();
        let sa = component_spans(a);
        let sb = component_spans(b);
        let ghost ca = components(a@);
        let ghost cb = components(b@);
        if sa.len() != sb.len() {
            return false;
        }
        for i in 0..sa.len()
            invariant
                ca == components(a@),
                cb == components(b@),
                a@ == self@,
                b@ == other@,
                cover(a@, sa@, ca),
                cover(b@, sb@, cb),
                sa@.len() == sb@.len(),
                forall|j: int| 0 <= j < i ==> ca[j] == cb[j],
        {
            let x = slice_subrange(a, sa[i].start, sa[i].end);
            let y = slice_subrange(b, sb[i].start, sb[i].end);
            assert(x@ == ca[i as int] && y@ == cb[i as int]);
            if !same_bytes(x, y) {
                return false;
            }
        }
        assert(ca =~= cb);
        true
    }

    /// Whether the path comes before `other`, component by component.
    pub fn before(&self, other: &FilePath) -> (r: bool)
        ensures
            r == path_lt(self@, other@),
    {
        let a = self.bytes.as_slice();
        let b = other.bytes.as_slice();
        let sa = component_spans(a);
        let sb = component_spans(b);
        let ghost ca = components(a@);
        let ghost cb = components(b@);
        let mut i: usize = 0;
        assert(ca.skip(0) == ca && cb.skip(0) == cb);
        while i < sa.len() && i < sb.len()
            invariant
                ca == components(a@),
                cb == components(b@),
                a@ == self@,
                b@ == other@,
                cover(a@, sa@, ca),
                cover(b@, sb@, cb),
                i <= ca.len(),
                i <= cb.len(),
                path_lt(self@, other@) == lex_lt(
                    component_order(),
                    ca.skip(i as int),
                    cb.skip(i as int),
                ),
            decreases ca.len() - i,
        {
            let x = slice_subrange(a, sa[i].start, sa[i].end);
            let y = slice_subrange(b, sb[i].start, sb[i].end);
            assert(x@ == ca[i as int] && y@ == cb[i as int]);
            if !same_bytes(x, y) {
                return component_before(x, y);
            }
            assert(ca.skip(i as int).skip(1) == ca.skip(i + 1));
            assert(cb.skip(i as int).skip(1) == cb.skip(i + 1));
            i += 1;
        }
        i < sb.len()
    }

    /// The last component, if it is a name.
    pub fn file_name(&self) -> (r: Option<&[u8]>)
        ensures
            r is Some <==> file_name(self@) is Some,
            r matches Some(n) ==> file_name(self@) == Some(n@),
    {
        let b = self.bytes.as_slice();
        let spans = component_spans(b);
        let n: usize = spans.len();
        if n == 0 {
            return None;
        }
        let last = slice_subrange(b, spans[n - 1].start, spans[n - 1].end);
        assert(last@ == components(b@)[n - 1]);
        if rank_of(last) == 3 {
            Some(last)
        } else {
            None
        }
    }

    /// `rel` seen from this path.
    pub fn join(&self, rel: &str) -> (r: FilePath)
        ensures
            r@ == joined(self@, encode_utf8(rel@)),
    {
        let mut bytes = slice_to_vec(self.bytes.as_slice());
        push_path(&mut bytes, rel.as_bytes());
        FilePath { bytes }
    }

    /// `rel` seen from this path.
    pub fn join_path(&self, rel: &FilePath) -> (r: FilePath)
        ensures
            r@ == joined(self@, rel@),
    {
        let mut bytes = slice_to_vec(self.bytes.as_slice());
        push_path(&mut bytes, rel.bytes.as_slice());
        FilePath { bytes }
    }

    /// The path without its last component, or nothing for the root directory
    /// and the empty path.
    pub fn parent(&self) -> (r: Option<FilePath>)
        ensures
            r is Some <==> parent(self@) is Some,
            r matches Some(p) ==> parent(self@) == Some(p@),
    {
        let t = tail_trimmed(self.bytes.as_slice());
        if t.len() == 0 {
            return None;
        }
        if t.len() == 1 && t[0] == SLASH {
            assert(t@ =~= root_dir());
            return None;
        }
        assert(t@ != root_dir()) by {
            if t@ == root_dir() {
                assert(t@.len() == 1 && t@[0] == SLASH);
            }
        }
        let mut k: usize = t.len();
        assert(t@.take(k as int) == t@);
        while k > 0 && t[k - 1] != SLASH
            invariant
                k <= t@.len(),
                last_slash(t@) == last_slash(t@.take(k as int)),
            decreases k,
        {
            assert(t@.take(k as int).drop_last() == t@.take(k - 1));
            k -= 1;
        }
        if k == 0 {
            let bytes: Vec<u8> = Vec::new();
            Some(FilePath { bytes })
        } else if k == 1 {
            let mut bytes: Vec<u8> = Vec::new();
            bytes.push(SLASH);
            assert(bytes@ =~= root_dir());
            Some(FilePath { bytes })
        } else {
            let cut = slice_subrange(t, 0, k - 1);
            assert(cut@ == t@.take(k - 1));
            Some(FilePath { bytes: slice_to_vec(tail_trimmed(cut)) })
        }
    }

    /// The path itself, its parent, the parent of that, and so on.
    pub fn ancestors(&self) -> (r: Vec<FilePath>)
        ensures
            paths(r@) == ancestors(self@),
    {
        let mut r: Vec<FilePath> = Vec::new();
        let mut at: FilePath = self.clone();
        loop
            invariant
                paths(r@) + ancestors(at@) == ancestors(self@),
            decreases at@.len(),
        {
            let ghost here = at@;
            let ghost before = r@;
            proof {
                crate::path::law_parent_drops_last_component(here);
            }
            let up = at.parent();
            r.push(at);
            assert(paths(r@) == paths(before) + seq![here]);
            match up {
                None => {
                    return r;
                },
                Some(p) => {
                    assert(paths(before) + (seq![here] + ancestors(p@)) == paths(r@) + ancestors(
                        p@,
                    ));
                    at = p;
                },
            }
        }
    }

    /// The path with `.` and `..` resolved by the text alone.
    pub fn normalize(&self) -> (r: FilePath)
        ensures
            r@ == normalized(self@),
    {
        let b = self.bytes.as_slice();
        let spans = component_spans(b);
        let ghost c = components(b@);
        let mut kept: Vec<Span> = Vec::new();
        assert(c.take(0).len() == 0);
        for i in 0..spans.len()
            invariant
                c == components(b@),
                cover(b@, spans@, c),
                cover(b@, kept@, resolved(c.take(i as int))),
        {
            let part = slice_subrange(b, spans[i].start, spans[i].end);
            assert(part@ == c[i as int]);
            assert(c.take(i + 1).drop_last() == c.take(i as int));
            assert(c.take(i + 1).last() == c[i as int]);
            let ghost before = resolved(c.take(i as int));
            assert(root_dir()[0] == SLASH && cur_dir()[0] == DOT && parent_dir().len() == 2);
            let kind: u8 = rank_of(part);
            if kind == 2 {
                let n: usize = kept.len();
                if n > 0 {
                    let last = slice_subrange(b, kept[n - 1].start, kept[n - 1].end);
                    assert(last@ == before[n - 1]);
                    if rank_of(last) != 0 {
                        kept.pop();
                    }
                }
            } else if kind != 1 {
                kept.push(spans[i]);
            }
            assert(cover(b@, kept@, resolved(c.take(i + 1))));
        }
        assert(c.take(c.len() as int) == c);
        let ghost parts = resolved(c);
        let mut out: Vec<u8> = Vec::new();
        assert(parts.take(0).len() == 0);
        for i in 0..kept.len()
            invariant
                cover(b@, kept@, parts),
                out@ == rendered(parts.take(i as int)),
        {
            let part = slice_subrange(b, kept[i].start, kept[i].end);
            assert(part@ == parts[i as int]);
            assert(parts.take(i + 1).drop_last() == parts.take(i as int));
            push_path(&mut out, part);
        }
        assert(parts.take(parts.len() as int) == parts);
        FilePath { bytes: out }
    }

    /// `value` seen from this path, with `.` and `..` resolved.
    pub fn absolutize(&self, value: &FilePath) -> (r: FilePath)
        ensures
            r@ == absolutized(self@, value@),
    {
        self.join_path(value).normalize()
    }

    /// The text of the path after the components of `base`, if those open it.
    pub fn strip_prefix(&self, base: &FilePath) -> (r: Option<FilePath>)
        ensures
            r is Some <==> stripped(self@, base@) is Some,
            r matches Some(p) ==> stripped(self@, base@) == Some(p@),
    {
        let a = self.bytes.as_slice();
        let b = base.bytes.as_slice();
        let sa = component_spans(a);
        let sb = component_spans(b);
        let ghost ca = components(a@);
        let ghost cb = components(b@);
        if sb.len() > sa.len() {
            return None;
        }
        for i in 0..sb.len()
            invariant
                ca == components(a@),
                cb == components(b@),
                a@ == self@,
                b@ == base@,
                cover(a@, sa@, ca),
                cover(b@, sb@, cb),
                sb@.len() <= sa@.len(),
                forall|j: int| 0 <= j < i ==> ca[j] == cb[j],
        {
            let x = slice_subrange(a, sa[i].start, sa[i].end);
            let y = slice_subrange(b, sb[i].start, sb[i].end);
            assert(x@ == ca[i as int] && y@ == cb[i as int]);
            if !same_bytes(x, y) {
                return None;
            }
        }
        assert(cb =~= ca.subrange(0, cb.len() as int));
        if sb.len() == 0 {
            return Some(FilePath { bytes: slice_to_vec(tail_trimmed(a)) });
        }
        let first = slice_subrange(a, sa[0].start, sa[0].end);
        assert(first@ == ca[0]);
        let headed: usize = if rank_of(first) < 2 { 1 } else { 0 };
        proof {
            crate::path::lemma_names_hold_no_slash(a@);
            if head(a@).len() == 0 {
                assert(ca[0] == names(a@)[0]);
                if ca[0] == root_dir() {
                    assert(ca[0][0] == SLASH);
                }
            }
        }
        let rest = skip_names(a, sb.len() - headed);
        Some(FilePath { bytes: slice_to_vec(tail_trimmed(rest)) })
    }

    /// The path as text for people to read.
    pub fn to_text(&self) -> (s: String)
        ensures
            s@ == lossy_text(self@),
            valid_utf8(self@) ==> s@ == decode_utf8(self@),
    {
        text_of(self.bytes.as_slice())
    }
}

/// The view of an optional path.
pub open spec fn path_view(p: Option<FilePath>) -> Option<Seq<u8>> {
    match p {
        Some(f) => Some(f@),
        None => None,
    }
}

/// The bytes of a list of paths.
pub open spec fn paths(v: Seq<FilePath>) -> Seq<Seq<u8>> {
    v.map_values(|p: FilePath| p@)
}

/// The text of a path after its first `n` names.
fn skip_names(b: &[u8], n: usize) -> (r: &[u8])
    ensures
        r@ == after_names(b@, n as nat),
{
    let mut a: usize = 0;
    let mut left: usize = n;
    assert(b@.skip(0) == b@);
    loop
        invariant
            a <= b@.len(),
            after_names(b@, n as nat) == after_names(b@.skip(a as int), left as nat),
        decreases b@.len() - a,
    {
        let k: usize = find_slash(b, a);
        let ghost rest = b@.skip(a as int);
        let piece = slice_subrange(b, a, k);
        assert(piece@ == rest.take(k - a));
        let dot: bool = piece.len() == 1 && piece[0] == DOT;
        assert(dot == (piece@ == cur_dir())) by {
            if dot {
                assert(piece@ =~= cur_dir());
            }
        }
        let counted: bool = piece.len() > 0 && !dot;
        if counted && left == 0 {
            assert(b@.subrange(a as int, b@.len() as int) == rest);
            return slice_subrange(b, a, b.len());
        }
        if k == b.len() {
            assert(piece@ == rest);
            assert(b@.subrange(k as int, k as int) =~= Seq::<u8>::empty());
            return slice_subrange(b, k, k);
        }
        assert(rest.skip(k - a + 1) == b@.skip(k + 1));
        if counted {
            left = left - 1;
        }
        a = k + 1;
    }
}

/// Cuts the slashes and `/.` that end a path.
fn tail_trimmed(b: &[u8]) -> (r: &[u8])
    ensures
        r@ == trimmed_tail(b@),
{
    let mut n: usize = b.len();
    assert(b@.take(n as int) == b@);
    while n > 1 && (b[n - 1] == SLASH || (b[n - 1] == DOT && b[n - 2] == SLASH))
        invariant
            n <= b@.len(),
            trimmed_tail(b@) == trimmed_tail(b@.take(n as int)),
        decreases n,
    {
        assert(b@.take(n as int).drop_last() == b@.take(n - 1));
        n -= 1;
    }
    assert(b@.subrange(0, n as int) == b@.take(n as int));
    slice_subrange(b, 0, n)
}

/// The byte of a character of ASCII.
proof fn lemma_ascii_byte(c: u32)
    by (bit_vector)
    requires
        c < 0x80,
    ensures
        (c & 0x7F) as u8 == c,
{
}

/// Law: a text of ASCII is written as one byte for each character, its number.
pub proof fn law_ascii_bytes(s: Seq<char>)
    requires
        forall|i: int| 0 <= i < s.len() ==> ((#[trigger] s[i]) as u32) < 0x80,
    ensures
        encode_utf8(s).len() == s.len(),
        forall|i: int| 0 <= i < s.len() ==> (#[trigger] encode_utf8(s)[i]) == s[i] as u32,
    decreases s.len(),
{
    if s.len() > 0 {
        let rest = s.drop_first();
        assert forall|i: int| 0 <= i < rest.len() implies ((#[trigger] rest[i]) as u32) < 0x80 by {
            assert(rest[i] == s[i + 1]);
        }
        law_ascii_bytes(rest);
        lemma_ascii_byte(s[0] as u32);
        assert(encode_utf8(s).len() == s.len());
        assert forall|i: int| 0 <= i < s.len() implies (#[trigger] encode_utf8(s)[i]) == s[i] as u32 by {
            if i > 0 {
                assert(encode_utf8(s)[i] == encode_utf8(rest)[i - 1]);
            }
        }
    }
}

/// Law: different texts are written as different bytes.
pub proof fn law_bytes_tell_texts_apart(a: Seq<char>, b: Seq<char>)
    ensures
        encode_utf8(a) == encode_utf8(b) <==> a == b,
{
    broadcast use vstd::utf8::encode_utf8_decode_utf8;

    if encode_utf8(a) == encode_utf8(b) {
        assert(decode_utf8(encode_utf8(a)) == decode_utf8(encode_utf8(b)));
    }
}

} // verus!
