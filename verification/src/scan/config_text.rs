//! The text of Cargo's config files, as far as output directories go.
use vstd::prelude::*;

use crate::seqs::{lemma_position, lemma_position_is, position};
use crate::text::{
    find, same_text, split_lines, string_of, text_view, trim, trim_end, trimmed, trimmed_end,
    trimmed_start, white_space,
};

verus! {

/// How many characters stand before the comment that starts at the first `#`
/// outside quotes; all of them if there is none. `quote` is the quote that is
/// open at the start. In double quotes a backslash hides the next character.
pub open spec fn before_comment(s: Seq<char>, quote: Option<char>) -> nat
    decreases s.len(),
{
    if s.len() == 0 {
        0
    } else if quote == Some(s[0]) {
        1 + before_comment(s.skip(1), None)
    } else if quote == Some('"') && s[0] == '\\' {
        if s.len() == 1 {
            1
        } else {
            2 + before_comment(s.skip(2), quote)
        }
    } else if quote is Some {
        1 + before_comment(s.skip(1), quote)
    } else if s[0] == '"' || s[0] == '\'' {
        1 + before_comment(s.skip(1), Some(s[0]))
    } else if s[0] == '#' {
        0
    } else {
        1 + before_comment(s.skip(1), None)
    }
}

/// A value without its trailing comment and the white space before that.
pub open spec fn without_comment(s: Seq<char>) -> Seq<char> {
    let k = before_comment(s, None);
    if k < s.len() {
        trimmed_end(s.take(k as int))
    } else {
        s
    }
}

/// Cuts a trailing comment, if there is one.
pub fn strip_comment(rhs: &[char]) -> (r: &[char])
    ensures
        r@ == without_comment(rhs@),
{
    let mut i: usize = 0;
    let mut quote: Option<char> = None;
    assert(rhs@.skip(0) == rhs@);
    let n: usize = rhs.len();
    while i < n
        invariant
            n == rhs@.len(),
            i <= n,
            before_comment(rhs@, None) == i + before_comment(rhs@.skip(i as int), quote),
        decreases n - i,
    {
        let c: char = rhs[i];
        let ghost s = rhs@.skip(i as int);
        assert(s[0] == c);
        assert(s.skip(1) == rhs@.skip(i + 1));
        match quote {
            Some(q) => {
                if c == q {
                    quote = None;
                } else if q == '"' && c == '\\' {
                    if i + 1 == n {
                        return rhs;
                    }
                    assert(s.skip(2) == rhs@.skip(i + 2));
                    i += 1;
                }
            },
            None => {
                if c == '"' || c == '\'' {
                    quote = Some(c);
                } else if c == '#' {
                    let kept = vstd::slice::slice_subrange(rhs, 0, i);
                    assert(kept@ == rhs@.take(i as int));
                    return trim_end(kept);
                }
            },
        }
        i += 1;
    }
    rhs
}

/// The character that an escape stands for.
pub open spec fn unescaped(c: char) -> char {
    if c == 'n' {
        '\n'
    } else if c == 't' {
        '\t'
    } else if c == 'r' {
        '\r'
    } else {
        c
    }
}

/// What a basic string holds, given what follows its opening quote; nothing
/// if it is not closed, or if anything follows its closing quote.
pub open spec fn basic_string(s: Seq<char>) -> Option<Seq<char>>
    decreases s.len(),
{
    if s.len() == 0 {
        None
    } else if s[0] == '"' {
        if s.len() == 1 {
            Some(Seq::empty())
        } else {
            None
        }
    } else if s[0] == '\\' {
        if s.len() == 1 {
            None
        } else {
            match basic_string(s.skip(2)) {
                Some(rest) => Some(seq![unescaped(s[1])] + rest),
                None => None,
            }
        }
    } else {
        match basic_string(s.skip(1)) {
            Some(rest) => Some(seq![s[0]] + rest),
            None => None,
        }
    }
}

/// What a literal string holds, given what follows its opening quote; nothing
/// if it is not closed, or if anything follows its closing quote.
pub open spec fn literal_string(s: Seq<char>) -> Option<Seq<char>> {
    if s.len() > 0 && position(s, '\'') == s.len() - 1 {
        Some(s.drop_last())
    } else {
        None
    }
}

/// The string that a value spells: basic, in double quotes, or literal, in
/// single quotes. Nothing for any other value.
pub open spec fn string_value(rhs: Seq<char>) -> Option<Seq<char>> {
    let s = trimmed(without_comment(rhs));
    if s.len() > 0 && s[0] == '"' {
        basic_string(s.skip(1))
    } else if s.len() > 0 && s[0] == '\'' {
        literal_string(s.skip(1))
    } else {
        None
    }
}

/// Reads a basic string after its opening quote.
fn read_basic_string(s: &[char]) -> (r: Option<String>)
    ensures
        text_view(r) == basic_string(s@),
{
    let mut out: Vec<char> = Vec::new();
    let mut i: usize = 0;
    let n: usize = s.len();
    assert(s@.skip(0) == s@);
    proof {
        if basic_string(s@) is Some {
            assert(out@ + basic_string(s@)->0 == basic_string(s@)->0);
        }
    }
    while i < n
        invariant
            n == s@.len(),
            i <= n,
            basic_string(s@) is Some <==> basic_string(s@.skip(i as int)) is Some,
            basic_string(s@.skip(i as int)) matches Some(rest) ==> basic_string(s@) == Some(
                out@ + rest,
            ),
        decreases n - i,
    {
        let c: char = s[i];
        let ghost rest = s@.skip(i as int);
        let ghost before = out@;
        assert(rest[0] == c);
        assert(rest.skip(1) == s@.skip(i + 1));
        if c == '"' {
            assert(before + Seq::<char>::empty() == before);
            if i + 1 < n {
                return None;
            }
            return Some(string_of(out.as_slice()));
        }
        if c == '\\' {
            if i + 1 == n {
                return None;
            }
            let e: char = s[i + 1];
            let d: char = if e == 'n' {
                '\n'
            } else if e == 't' {
                '\t'
            } else if e == 'r' {
                '\r'
            } else {
                e
            };
            out.push(d);
            assert(rest.skip(2) == s@.skip(i + 2));
            proof {
                if let Some(tail) = basic_string(rest.skip(2)) {
                    assert(before + (seq![d] + tail) == out@ + tail);
                }
            }
            i += 2;
        } else {
            out.push(c);
            proof {
                if let Some(tail) = basic_string(rest.skip(1)) {
                    assert(before + (seq![c] + tail) == out@ + tail);
                }
            }
            i += 1;
        }
    }
    assert(s@.skip(i as int).len() == 0);
    None
}

/// Reads the string that a value spells.
pub fn parse_string_value(rhs: &[char]) -> (r: Option<String>)
    ensures
        text_view(r) == string_value(rhs@),
{
    let s = trim(strip_comment(rhs));
    if s.len() == 0 {
        return None;
    }
    let inner = vstd::slice::slice_subrange(s, 1, s.len());
    assert(inner@ == s@.skip(1));
    if s[0] == '"' {
        read_basic_string(inner)
    } else if s[0] == '\'' {
        let k: usize = find(inner, '\'');
        if k == inner.len() || k + 1 < inner.len() {
            return None;
        }
        let kept = vstd::slice::slice_subrange(inner, 0, k);
        assert(kept@ =~= inner@.drop_last());
        Some(string_of(kept))
    } else {
        None
    }
}

/// Whether a line opens the table `[build]`.
pub open spec fn opens_build(line: Seq<char>) -> bool {
    &&& line.len() >= 2
    &&& line[0] == '['
    &&& line.last() == ']'
    &&& trimmed(line.subrange(1, line.len() - 1)) == "build"@
}

/// Tests whether a line opens the table `[build]`.
pub fn section_is_build(line: &[char]) -> (b: bool)
    ensures
        b == opens_build(line@),
{
    let n: usize = line.len();
    if n < 2 || line[0] != '[' || line[n - 1] != ']' {
        return false;
    }
    same_text(trim(vstd::slice::slice_subrange(line, 1, n - 1)), "build")
}

/// What has been read of a config text: the two directories, and whether the
/// current table is `[build]`.
#[verifier::ext_equal]
pub struct Reading {
    pub target_dir: Option<Seq<char>>,
    pub build_dir: Option<Seq<char>>,
    pub in_build: bool,
}

/// How one line changes what has been read. A later assignment of a key
/// replaces an earlier one, also by nothing.
pub open spec fn read_line(r: Reading, raw: Seq<char>) -> Reading {
    let line = trimmed(raw);
    let k = position(line, '=');
    let key = trimmed(line.take(k));
    if line.len() == 0 || line[0] == '#' {
        r
    } else if line[0] == '[' {
        Reading { in_build: opens_build(line), ..r }
    } else if !r.in_build || k >= line.len() {
        r
    } else if key == "target-dir"@ {
        Reading { target_dir: string_value(line.skip(k + 1)), ..r }
    } else if key == "build-dir"@ {
        Reading { build_dir: string_value(line.skip(k + 1)), ..r }
    } else {
        r
    }
}

/// What the first lines of a config text say, read in order.
pub open spec fn read_lines(ls: Seq<Seq<char>>) -> Reading
    decreases ls.len(),
{
    if ls.len() == 0 {
        Reading { target_dir: None, build_dir: None, in_build: false }
    } else {
        read_line(read_lines(ls.drop_last()), ls.last())
    }
}

/// The values of `build.target-dir` and `build.build-dir` in a config text.
pub open spec fn build_dirs(text: Seq<char>) -> (Option<Seq<char>>, Option<Seq<char>>) {
    let r = read_lines(crate::text::lines(text));
    (r.target_dir, r.build_dir)
}

/// Reads `build.target-dir` and `build.build-dir` from a config text. Only
/// the table `[build]` counts; any other table ends it.
pub fn parse_build_dirs(text: &str) -> (r: (Option<String>, Option<String>))
    ensures
        (text_view(r.0), text_view(r.1)) == build_dirs(text@),
{
    let cs = crate::text::chars_of(text);
    let ls = split_lines(cs.as_slice());
    let ghost all = crate::text::lines(text@);
    let mut target_dir: Option<String> = None;
    let mut build_dir: Option<String> = None;
    let mut in_build: bool = false;
    assert(all.take(0).len() == 0);
    for i in 0..ls.len()
        invariant
            all == crate::text::texts(ls@),
            read_lines(all.take(i as int)) == (Reading {
                target_dir: text_view(target_dir),
                build_dir: text_view(build_dir),
                in_build,
            }),
    {
        assert(all.take(i + 1).drop_last() == all.take(i as int));
        assert(all.take(i + 1).last() == ls@[i as int]@);
        let line = trim(ls[i].as_slice());
        if line.len() > 0 && line[0] != '#' {
            let k: usize = find(line, '=');
            if line[0] == '[' {
                in_build = section_is_build(line);
            } else if in_build && k < line.len() {
                let left = vstd::slice::slice_subrange(line, 0, k);
                assert(left@ == line@.take(k as int));
                let key = trim(left);
                let rhs = vstd::slice::slice_subrange(line, k + 1, line.len());
                assert(rhs@ == line@.skip(k + 1));
                if same_text(key, "target-dir") {
                    target_dir = parse_string_value(rhs);
                } else if same_text(key, "build-dir") {
                    build_dir = parse_string_value(rhs);
                }
            }
        }
    }
    assert(all.take(all.len() as int) == all);
    (target_dir, build_dir)
}

/// Law: a line that is blank, a comment, or an assignment outside `[build]`
/// changes nothing that was read.
pub proof fn law_line_outside_build(r: Reading, raw: Seq<char>)
    requires
        ({
            let line = trimmed(raw);
            ||| line.len() == 0
            ||| line[0] == '#'
            ||| (line[0] != '[' && !r.in_build)
        }),
    ensures
        read_line(r, raw) == r,
{
}

/// Law: every table header ends the table before it, and only `[build]`
/// starts one that counts.
pub proof fn law_header_ends_table(r: Reading, raw: Seq<char>)
    requires
        trimmed(raw).len() > 0,
        trimmed(raw)[0] == '[',
    ensures
        read_line(r, raw) == (Reading { in_build: opens_build(trimmed(raw)), ..r }),
{
}

/// A text as it stands in double quotes: a backslash before each double quote
/// and each backslash.
pub open spec fn escaped(t: Seq<char>) -> Seq<char>
    decreases t.len(),
{
    if t.len() == 0 {
        t
    } else if t[0] == '"' || t[0] == '\\' {
        seq!['\\', t[0]] + escaped(t.skip(1))
    } else {
        seq![t[0]] + escaped(t.skip(1))
    }
}

/// Law: a text without double quotes and backslashes is escaped as it is.
pub proof fn law_plain_text_is_escaped(t: Seq<char>)
    requires
        !t.contains('"'),
        !t.contains('\\'),
    ensures
        escaped(t) == t,
    decreases t.len(),
{
    if t.len() > 0 {
        let u = t.skip(1);
        assert(t.contains(t[0]));
        assert forall|c: char| u.contains(c) implies t.contains(c) by {
            let i = choose|i: int| 0 <= i < u.len() && u[i] == c;
            assert(t[i + 1] == c);
        }
        law_plain_text_is_escaped(u);
        assert(seq![t[0]] + u == t);
    }
}

/// Text in single quotes reaches to the next one, whatever stands in it.
proof fn lemma_before_comment_literal(t: Seq<char>, rest: Seq<char>)
    requires
        !t.contains('\''),
    ensures
        before_comment(t + (seq!['\''] + rest), Some('\'')) == t.len() + 1 + before_comment(
            rest,
            None,
        ),
    decreases t.len(),
{
    let s = t + (seq!['\''] + rest);
    if t.len() == 0 {
        assert(s[0] == '\'');
        assert(s.skip(1) == rest);
    } else {
        let u = t.skip(1);
        assert(t.contains(t[0]));
        assert forall|c: char| u.contains(c) implies t.contains(c) by {
            let i = choose|i: int| 0 <= i < u.len() && u[i] == c;
            assert(t[i + 1] == c);
        }
        lemma_before_comment_literal(u, rest);
        assert(s[0] == t[0]);
        assert(s.skip(1) == u + (seq!['\''] + rest));
    }
}

/// An escaped text in double quotes reaches to the closing one.
proof fn lemma_before_comment_escaped(t: Seq<char>, rest: Seq<char>)
    ensures
        before_comment(escaped(t) + (seq!['"'] + rest), Some('"')) == escaped(t).len() + 1
            + before_comment(rest, None),
    decreases t.len(),
{
    let end = seq!['"'] + rest;
    let s = escaped(t) + end;
    if t.len() == 0 {
        assert(s[0] == '"');
        assert(s.skip(1) == rest);
    } else {
        let u = escaped(t.skip(1));
        lemma_before_comment_escaped(t.skip(1), rest);
        if t[0] == '"' || t[0] == '\\' {
            assert(s[0] == '\\');
            assert(s.skip(2) == u + end);
        } else {
            assert(s[0] == t[0]);
            assert(s.skip(1) == u + end);
        }
    }
}

/// White space before a comment or the end holds no comment.
proof fn lemma_before_comment_blank(w: Seq<char>, c: Seq<char>)
    requires
        forall|i: int| 0 <= i < w.len() ==> white_space(#[trigger] w[i]),
        c.len() == 0 || c[0] == '#',
    ensures
        before_comment(w + c, None) == w.len(),
    decreases w.len(),
{
    let s = w + c;
    if w.len() > 0 {
        let u = w.skip(1);
        assert forall|i: int| 0 <= i < u.len() implies white_space(#[trigger] u[i]) by {
            assert(u[i] == w[i + 1]);
        }
        lemma_before_comment_blank(u, c);
        assert(s[0] == w[0]);
        assert(white_space(w[0]));
        assert(s.skip(1) == u + c);
    }
}

/// Trailing white space is trimmed away.
proof fn lemma_trimmed_end_blank(s: Seq<char>, w: Seq<char>)
    requires
        s.len() > 0,
        !white_space(s.last()),
        forall|i: int| 0 <= i < w.len() ==> white_space(#[trigger] w[i]),
    ensures
        trimmed_end(s + w) == s,
    decreases w.len(),
{
    if w.len() == 0 {
        assert(s + w == s);
    } else {
        let u = w.drop_last();
        assert forall|i: int| 0 <= i < u.len() implies white_space(#[trigger] u[i]) by {
            assert(u[i] == w[i]);
        }
        lemma_trimmed_end_blank(s, u);
        assert((s + w).last() == w.last());
        assert((s + w).drop_last() == s + u);
    }
}

/// What is left of quoted text with white space and a comment behind it, if it
/// reaches to its closing quote.
proof fn lemma_quoted_alone(t: Seq<char>, q: char, w: Seq<char>, c: Seq<char>)
    requires
        q == '"' || q == '\'',
        before_comment(t + (seq![q] + (w + c)), Some(q)) == t.len() + 1 + before_comment(
            w + c,
            None,
        ),
        forall|i: int| 0 <= i < w.len() ==> white_space(#[trigger] w[i]),
        c.len() == 0 || c[0] == '#',
    ensures
        trimmed(without_comment(seq![q] + t + seq![q] + w + c)) == seq![q] + t + seq![q],
{
    let quoted = seq![q] + t + seq![q];
    let s = quoted + w + c;
    assert(s.skip(1) == t + (seq![q] + (w + c)));
    lemma_before_comment_blank(w, c);
    assert(s[0] == q);
    assert(before_comment(s, None) == quoted.len() + w.len());
    assert(s.take((quoted.len() + w.len()) as int) == quoted + w);
    assert(quoted.last() == q);
    assert(quoted[0] == q);
    lemma_trimmed_end_blank(quoted, w);
    lemma_trimmed_end_blank(quoted, Seq::empty());
    assert(quoted + Seq::<char>::empty() == quoted);
    if c.len() == 0 {
        assert(s == quoted + w);
        assert(trimmed_start(s) == s);
    } else {
        assert(without_comment(s) == quoted);
        assert(trimmed_start(quoted) == quoted);
    }
}

/// A basic string holds the text whose escaped form it is.
proof fn lemma_basic_string(t: Seq<char>)
    ensures
        basic_string(escaped(t) + seq!['"']) == Some(t),
    decreases t.len(),
{
    let s = escaped(t) + seq!['"'];
    if t.len() > 0 {
        let u = t.skip(1);
        lemma_basic_string(u);
        assert(seq![t[0]] + u == t);
        if t[0] == '"' || t[0] == '\\' {
            assert(s[0] == '\\' && s[1] == t[0]);
            assert(s.skip(2) == escaped(u) + seq!['"']);
        } else {
            assert(s[0] == t[0]);
            assert(s.skip(1) == escaped(u) + seq!['"']);
        }
    } else {
        assert(t == Seq::<char>::empty());
    }
}

/// Law: any text that is escaped and put in double quotes is read back
/// unchanged; white space and a comment may follow.
pub proof fn law_basic_value(t: Seq<char>, w: Seq<char>, c: Seq<char>)
    requires
        forall|i: int| 0 <= i < w.len() ==> white_space(#[trigger] w[i]),
        c.len() == 0 || c[0] == '#',
    ensures
        string_value(seq!['"'] + escaped(t) + seq!['"'] + w + c) == Some(t),
{
    let e = escaped(t);
    lemma_before_comment_escaped(t, w + c);
    lemma_quoted_alone(e, '"', w, c);
    let quoted = seq!['"'] + e + seq!['"'];
    assert(quoted.skip(1) == e + seq!['"']);
    lemma_basic_string(t);
}

/// Law: text in single quotes, without single quotes in it, is read back
/// unchanged; white space and a comment may follow.
pub proof fn law_literal_value(t: Seq<char>, w: Seq<char>, c: Seq<char>)
    requires
        !t.contains('\''),
        forall|i: int| 0 <= i < w.len() ==> white_space(#[trigger] w[i]),
        c.len() == 0 || c[0] == '#',
    ensures
        string_value(seq!['\''] + t + seq!['\''] + w + c) == Some(t),
{
    lemma_before_comment_literal(t, w + c);
    lemma_quoted_alone(t, '\'', w, c);
    let quoted = seq!['\''] + t + seq!['\''];
    let inner = quoted.skip(1);
    assert(inner == t + seq!['\'']);
    assert forall|i: int| 0 <= i < t.len() implies inner[i] != '\'' by {
        assert(t.contains(t[i]));
    }
    lemma_position_is(inner, '\'', t.len() as int);
    assert(inner.drop_last() == t);
}

/// A basic string ends with its closing quote.
proof fn lemma_basic_string_ends(s: Seq<char>)
    requires
        basic_string(s) is Some,
    ensures
        s.len() > 0,
        s.last() == '"',
    decreases s.len(),
{
    if s[0] == '\\' {
        lemma_basic_string_ends(s.skip(2));
    } else if s[0] != '"' {
        lemma_basic_string_ends(s.skip(1));
    }
}

/// Law: only a value that is in quotes of one kind as a whole, but for white
/// space and a comment, is read as a string.
pub proof fn law_value_is_quoted(rhs: Seq<char>)
    requires
        string_value(rhs) is Some,
    ensures
        ({
            let s = trimmed(without_comment(rhs));
            &&& s.len() >= 2
            &&& s[0] == '"' || s[0] == '\''
            &&& s.last() == s[0]
        }),
{
    let s = trimmed(without_comment(rhs));
    let inner = s.skip(1);
    if s[0] == '"' {
        lemma_basic_string_ends(inner);
    } else {
        lemma_position(inner, '\'');
    }
}

/// Law: in `[build]` an assignment to `target-dir` or `build-dir` sets that directory to
/// the string that stands behind the equals sign, whatever was set before; white space
/// around the key does not count. An assignment to another key sets nothing.
pub proof fn law_assignment(
    r: Reading,
    indent: Seq<char>,
    key: Seq<char>,
    gap: Seq<char>,
    value: Seq<char>,
)
    requires
        r.in_build,
        crate::text::all_white(indent),
        crate::text::all_white(gap),
        key.len() > 0,
        !key.contains('='),
        key[0] != '[',
        key[0] != '#',
        !white_space(key[0]),
        !white_space(key.last()),
        value.len() > 0,
        !white_space(value.last()),
    ensures
        ({
            let after = read_line(r, indent + key + gap + seq!['='] + value);
            let target = seq!['t', 'a', 'r', 'g', 'e', 't', '-', 'd', 'i', 'r'];
            let build = seq!['b', 'u', 'i', 'l', 'd', '-', 'd', 'i', 'r'];
            &&& after.in_build
            &&& key == target ==> after.target_dir == string_value(value) && after.build_dir
                == r.build_dir
            &&& key == build ==> after.build_dir == string_value(value) && after.target_dir
                == r.target_dir
            &&& key != target && key != build ==> after == r
        }),
{
    reveal_strlit("target-dir");
    reveal_strlit("build-dir");
    let target = seq!['t', 'a', 'r', 'g', 'e', 't', '-', 'd', 'i', 'r'];
    let build = seq!['b', 'u', 'i', 'l', 'd', '-', 'd', 'i', 'r'];
    assert("target-dir"@ =~= target);
    assert("build-dir"@ =~= build);
    assert(target[0] == 't' && build[0] == 'b');
    let none = Seq::<char>::empty();
    let line = key + gap + seq!['='] + value;
    let raw = indent + key + gap + seq!['='] + value;
    assert(raw =~= indent + line + none);
    assert(line[0] == key[0]);
    assert(line.last() == value.last());
    crate::text::law_trimmed(indent, line, none);
    let k = (key.len() + gap.len()) as int;
    assert forall|i: int| 0 <= i < k implies line[i] != '=' by {
        if i < key.len() {
            assert(line[i] == key[i]);
            assert(key.contains(key[i]));
        } else {
            assert(line[i] == gap[i - key.len()]);
            assert(white_space(gap[i - key.len()]));
            crate::text::law_white_space('=');
        }
    }
    assert(line[k] == '=');
    lemma_position_is(line, '=', k);
    crate::text::law_trimmed(none, key, gap);
    assert(line.take(k) =~= none + key + gap);
    assert(line.skip(k + 1) =~= value);
}

/// Law: a header starts the table that counts exactly if it names `build`; white space
/// inside the brackets and around them does not count.
pub proof fn law_header(
    r: Reading,
    indent: Seq<char>,
    a: Seq<char>,
    name: Seq<char>,
    b: Seq<char>,
    tail: Seq<char>,
)
    requires
        crate::text::all_white(indent),
        crate::text::all_white(a),
        crate::text::all_white(b),
        crate::text::all_white(tail),
        name.len() > 0,
        !white_space(name[0]),
        !white_space(name.last()),
    ensures
        ({
            let after = read_line(r, indent + (seq!['['] + (a + name + b) + seq![']']) + tail);
            &&& after.in_build <==> name == seq!['b', 'u', 'i', 'l', 'd']
            &&& after.target_dir == r.target_dir
            &&& after.build_dir == r.build_dir
        }),
{
    reveal_strlit("build");
    assert("build"@ =~= seq!['b', 'u', 'i', 'l', 'd']);
    let line = seq!['['] + (a + name + b) + seq![']'];
    assert(line[0] == '[');
    assert(line.last() == ']');
    crate::text::law_white_space('[');
    crate::text::law_white_space(']');
    crate::text::law_trimmed(indent, line, tail);
    assert(line.subrange(1, line.len() - 1) =~= a + name + b);
    crate::text::law_trimmed(a, name, b);
}

/// Law: lines are read one after the other from a text that has set nothing and opened
/// no table.
pub proof fn law_lines_are_read_in_order(ls: Seq<Seq<char>>, line: Seq<char>, text: Seq<char>)
    ensures
        read_lines(Seq::empty()).target_dir is None,
        read_lines(Seq::empty()).build_dir is None,
        !read_lines(Seq::empty()).in_build,
        read_lines(ls.push(line)) == read_line(read_lines(ls), line),
        build_dirs(text).0 == read_lines(crate::text::lines(text)).target_dir,
        build_dirs(text).1 == read_lines(crate::text::lines(text)).build_dir,
{
    assert(ls.push(line).drop_last() =~= ls);
}

/// Law: in double quotes a backslash before `n`, `t` and `r` stands for a line feed, a
/// tab and a carriage return, and before any other character for that character.
pub proof fn law_escapes(c: char, rest: Seq<char>)
    requires
        basic_string(rest) is Some,
    ensures
        ({
            let s = basic_string(seq!['\\', c] + rest);
            &&& s is Some
            &&& s->0.skip(1) == basic_string(rest)->0
            &&& s->0.len() == basic_string(rest)->0.len() + 1
            &&& c == 'n' ==> s->0[0] as u32 == 10
            &&& c == 't' ==> s->0[0] as u32 == 9
            &&& c == 'r' ==> s->0[0] as u32 == 13
            &&& c != 'n' && c != 't' && c != 'r' ==> s->0[0] == c
        }),
{
    let s = seq!['\\', c] + rest;
    assert(s[0] == '\\' && s[1] == c);
    assert(s.skip(2) =~= rest);
    assert(basic_string(s)->0.skip(1) =~= basic_string(rest)->0);
}

/// Law: a string that is not closed is none, nor is one that something follows.
pub proof fn law_strings_are_closed(t: Seq<char>, more: Seq<char>)
    requires
        more.len() > 0,
    ensures
        basic_string(escaped(t)) is None,
        basic_string(escaped(t) + seq!['"'] + more) is None,
        !t.contains('\'') ==> literal_string(t) is None && literal_string(
            t + seq!['\''] + more,
        ) is None,
    decreases t.len(),
{
    let s = escaped(t) + seq!['"'] + more;
    if t.len() > 0 {
        let u = t.skip(1);
        law_strings_are_closed(u, more);
        let e = escaped(t);
        if t[0] == '"' || t[0] == '\\' {
            assert(e[0] == '\\');
            assert(e.skip(2) =~= escaped(u));
            assert(s[0] == '\\');
            assert(s.skip(2) =~= escaped(u) + seq!['"'] + more);
        } else {
            assert(e[0] == t[0]);
            assert(e.skip(1) =~= escaped(u));
            assert(s[0] == t[0]);
            assert(s.skip(1) =~= escaped(u) + seq!['"'] + more);
        }
    } else {
        assert(s[0] == '"');
    }
    if !t.contains('\'') {
        let l = t + seq!['\''] + more;
        assert forall|i: int| 0 <= i < t.len() implies t[i] != '\'' by {
            assert(t.contains(t[i]));
        }
        assert forall|i: int| 0 <= i < t.len() implies l[i] != '\'' by {
            assert(l[i] == t[i]);
        }
        assert(l[t.len() as int] == '\'');
        lemma_position_is(l, '\'', t.len() as int);
        lemma_position(t, '\'');
    }
}

/// Law: outside quotes a comment starts at the first `#` and goes with the white space
/// before it; a value without `#` is kept as it is.
pub proof fn law_comment(s: Seq<char>, comment: Seq<char>)
    requires
        !s.contains('#'),
        !s.contains('"'),
        !s.contains('\''),
    ensures
        without_comment(s) == s,
        without_comment(s + seq!['#'] + comment) == trimmed_end(s),
{
    lemma_before_comment_plain(s, Seq::empty());
    assert(s + Seq::<char>::empty() =~= s);
    let c = seq!['#'] + comment;
    lemma_before_comment_plain(s, c);
    assert(s + seq!['#'] + comment =~= s + c);
    assert((s + c).take(s.len() as int) =~= s);
}

/// Text without quotes and `#` holds no comment.
proof fn lemma_before_comment_plain(s: Seq<char>, c: Seq<char>)
    requires
        !s.contains('#'),
        !s.contains('"'),
        !s.contains('\''),
        c.len() == 0 || c[0] == '#',
    ensures
        before_comment(s + c, None) == s.len(),
    decreases s.len(),
{
    let x = s + c;
    if s.len() > 0 {
        let u = s.skip(1);
        assert(s.contains(s[0]));
        assert forall|k: char| u.contains(k) implies s.contains(k) by {
            let i = choose|i: int| 0 <= i < u.len() && u[i] == k;
            assert(s[i + 1] == k);
        }
        lemma_before_comment_plain(u, c);
        assert(x[0] == s[0]);
        assert(x.skip(1) =~= u + c);
    }
}

} // verus!
