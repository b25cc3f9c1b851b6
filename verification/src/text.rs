//! Text as a sequence of characters: trimming, lines, search and replacement.
use vstd::prelude::*;
use vstd::slice::slice_subrange;

use crate::seqs::{lemma_position_is, position};

verus! {

/// The view of an optional string.
pub open spec fn text_view(s: Option<String>) -> Option<Seq<char>> {
    match s {
        Some(t) => Some(t@),
        None => None,
    }
}

/// The texts of a list of strings.
pub open spec fn strings_view(v: Seq<String>) -> Seq<Seq<char>> {
    v.map_values(|s: String| s@)
}

/// `String::push`: appends one character.
pub assume_specification[ String::push ](s: &mut String, c: char)
    ensures
        final(s)@ == old(s)@.push(c),
;

/// `String::pop`: removes the last character and returns it, or returns
/// `None` and changes nothing when there is none.
pub assume_specification[ String::pop ](s: &mut String) -> (c: Option<char>)
    ensures
        old(s)@.len() == 0 ==> c is None && final(s)@ == old(s)@,
        old(s)@.len() > 0 ==> c == Some(old(s)@.last()) && final(s)@ == old(s)@.drop_last(),
;

/// The characters of `s`, in order.
pub fn chars_of(s: &str) -> (v: Vec<char>)
    ensures
        v@ == s@,
{
    let mut v: Vec<char> = Vec::new();
    for c in it: s.chars()
        invariant
            v@ == s@.take(it.index() as int),
            it.seq() == s@,
    {
        v.push(c);
    }
    v
}

/// The string made of the characters `cs`.
pub fn string_of(cs: &[char]) -> (s: String)
    ensures
        s@ == cs@,
{
    let mut s = String::new();
    for i in 0..cs.len()
        invariant
            s@ == cs@.take(i as int),
    {
        s.push(cs[i]);
    }
    s
}

/// Whether `c` has the Unicode property `White_Space`.
pub open spec fn white_space(c: char) -> bool {
    let n = c as u32;
    ||| 0x9 <= n <= 0xd
    ||| n == 0x20 || n == 0x85 || n == 0xa0 || n == 0x1680
    ||| 0x2000 <= n <= 0x200a
    ||| n == 0x2028 || n == 0x2029 || n == 0x202f || n == 0x205f || n == 0x3000
}

/// Tests a character for the Unicode property `White_Space`.
pub fn is_white_space(c: char) -> (b: bool)
    ensures
        b == white_space(c),
{
    let n: u32 = c as u32;
    (0x9 <= n && n <= 0xd) || n == 0x20 || n == 0x85 || n == 0xa0 || n == 0x1680 || (0x2000 <= n
        && n <= 0x200a) || n == 0x2028 || n == 0x2029 || n == 0x202f || n == 0x205f || n == 0x3000
}

/// `s` without its leading white space.
pub open spec fn trimmed_start(s: Seq<char>) -> Seq<char>
    decreases s.len(),
{
    if s.len() > 0 && white_space(s[0]) {
        trimmed_start(s.skip(1))
    } else {
        s
    }
}

/// `s` without its trailing white space.
pub open spec fn trimmed_end(s: Seq<char>) -> Seq<char>
    decreases s.len(),
{
    if s.len() > 0 && white_space(s.last()) {
        trimmed_end(s.drop_last())
    } else {
        s
    }
}

/// `s` without white space at either end.
pub open spec fn trimmed(s: Seq<char>) -> Seq<char> {
    trimmed_end(trimmed_start(s))
}

/// Cuts the leading white space.
pub fn trim_start(cs: &[char]) -> (r: &[char])
    ensures
        r@ == trimmed_start(cs@),
{
    let mut a: usize = 0;
    assert(cs@.skip(0) == cs@);
    while a < cs.len() && is_white_space(cs[a])
        invariant
            a <= cs@.len(),
            trimmed_start(cs@) == trimmed_start(cs@.skip(a as int)),
        decreases cs@.len() - a,
    {
        assert(cs@.skip(a as int).skip(1) == cs@.skip(a + 1));
        a += 1;
    }
    assert(cs@.subrange(a as int, cs@.len() as int) == cs@.skip(a as int));
    slice_subrange(cs, a, cs.len())
}

/// Cuts the trailing white space.
pub fn trim_end(cs: &[char]) -> (r: &[char])
    ensures
        r@ == trimmed_end(cs@),
{
    let mut b: usize = cs.len();
    assert(cs@.take(b as int) == cs@);
    while b > 0 && is_white_space(cs[b - 1])
        invariant
            b <= cs@.len(),
            trimmed_end(cs@) == trimmed_end(cs@.take(b as int)),
        decreases b,
    {
        assert(cs@.take(b as int).drop_last() == cs@.take(b - 1));
        b -= 1;
    }
    assert(cs@.subrange(0, b as int) == cs@.take(b as int));
    slice_subrange(cs, 0, b)
}

/// Cuts the white space at both ends.
pub fn trim(cs: &[char]) -> (r: &[char])
    ensures
        r@ == trimmed(cs@),
{
    trim_end(trim_start(cs))
}

/// Whether `cs` and `lit` hold the same characters.
pub fn same_text(cs: &[char], lit: &str) -> (b: bool)
    ensures
        b == (cs@ == lit@),
{
    let other = chars_of(lit);
    if cs.len() != other.len() {
        return false;
    }
    for i in 0..cs.len()
        invariant
            cs@.len() == other@.len(),
            other@ == lit@,
            cs@.take(i as int) == other@.take(i as int),
    {
        if cs[i] != other[i] {
            return false;
        }
        assert(cs@.take(i + 1) == cs@.take(i as int).push(cs@[i as int]));
        assert(other@.take(i + 1) == other@.take(i as int).push(other@[i as int]));
    }
    assert(cs@.take(cs@.len() as int) == cs@);
    assert(other@.take(cs@.len() as int) == other@);
    true
}

/// Finds the first `c`.
pub fn find(cs: &[char], c: char) -> (i: usize)
    ensures
        i == position(cs@, c),
        i <= cs@.len(),
        i < cs@.len() ==> cs@[i as int] == c,
{
    let mut i: usize = 0;
    while i < cs.len() && cs[i] != c
        invariant
            i <= cs@.len(),
            forall|j: int| 0 <= j < i ==> cs@[j] != c,
        decreases cs@.len() - i,
    {
        i += 1;
    }
    proof {
        lemma_position_is(cs@, c, i as int);
    }
    i
}

/// `s` without one trailing carriage return.
pub open spec fn without_return(s: Seq<char>) -> Seq<char> {
    if s.len() > 0 && s.last() == '\r' {
        s.drop_last()
    } else {
        s
    }
}

/// The lines of `s`. A line ends before `\n` or `\r\n`, and nothing follows
/// a final line ending.
pub open spec fn lines(s: Seq<char>) -> Seq<Seq<char>>
    decreases s.len(),
{
    let k = position(s, '\n');
    if s.len() == 0 {
        Seq::empty()
    } else if !(0 <= k < s.len()) {
        seq![s]
    } else {
        seq![without_return(s.take(k))] + lines(s.skip(k + 1))
    }
}

/// The character sequences that the vectors hold.
pub open spec fn texts(v: Seq<Vec<char>>) -> Seq<Seq<char>> {
    v.map_values(|l: Vec<char>| l@)
}

/// A fresh vector of the characters of a slice.
pub fn to_vec(cs: &[char]) -> (v: Vec<char>)
    ensures
        v@ == cs@,
{
    let mut v: Vec<char> = Vec::new();
    for i in 0..cs.len()
        invariant
            v@ == cs@.take(i as int),
    {
        v.push(cs[i]);
    }
    v
}

/// Splits a text into its lines.
pub fn split_lines(cs: &[char]) -> (r: Vec<Vec<char>>)
    ensures
        texts(r@) == lines(cs@),
{
    let mut r: Vec<Vec<char>> = Vec::new();
    let mut a: usize = 0;
    assert(cs@.skip(0) == cs@);
    assert(texts(r@) + lines(cs@) == lines(cs@));
    while a < cs.len()
        invariant
            a <= cs@.len(),
            texts(r@) + lines(cs@.skip(a as int)) == lines(cs@),
        decreases cs@.len() - a,
    {
        let rest = slice_subrange(cs, a, cs.len());
        let ghost before = r@;
        let ghost s = cs@.skip(a as int);
        assert(rest@ == s);
        let k: usize = find(rest, '\n');
        if k < rest.len() {
            let line = slice_subrange(rest, 0, k);
            assert(line@ == s.take(k as int));
            let cut: usize = if k > 0 && rest[k - 1] == '\r' {
                k - 1
            } else {
                k
            };
            let kept = slice_subrange(rest, 0, cut);
            assert(kept@ == without_return(s.take(k as int)));
            r.push(to_vec(kept));
            assert(cs@.skip(a + k + 1) == s.skip(k + 1));
            assert(texts(r@) == texts(before) + seq![kept@]);
            assert(texts(r@) + lines(s.skip(k + 1)) == texts(before) + (seq![kept@] + lines(
                s.skip(k + 1),
            )));
            a = a + k + 1;
        } else {
            r.push(to_vec(rest));
            assert(texts(r@) == texts(before) + seq![s]);
            a = cs.len();
            assert(cs@.skip(a as int).len() == 0);
            assert(lines(cs@.skip(a as int)) == Seq::<Seq<char>>::empty());
            assert(texts(r@) + lines(cs@.skip(a as int)) == texts(before) + lines(s));
        }
    }
    assert(cs@.skip(a as int).len() == 0);
    assert(texts(r@) + Seq::<Seq<char>>::empty() == texts(r@));
    r
}

/// Whether `pat` stands at the start of `s`.
pub open spec fn starts_with(s: Seq<char>, pat: Seq<char>) -> bool {
    pat.len() <= s.len() && s.take(pat.len() as int) == pat
}

/// Whether `pat` occurs in `s`.
pub open spec fn contains_text(s: Seq<char>, pat: Seq<char>) -> bool {
    exists|i: int| 0 <= i <= s.len() && #[trigger] starts_with(s.skip(i), pat)
}

/// `s` with every occurrence of `pat` replaced, found from the left and
/// without overlap.
pub open spec fn replaced(s: Seq<char>, pat: Seq<char>, with: Seq<char>) -> Seq<char>
    decreases s.len(),
{
    if s.len() == 0 || pat.len() == 0 {
        s
    } else if starts_with(s, pat) {
        with + replaced(s.skip(pat.len() as int), pat, with)
    } else {
        seq![s[0]] + replaced(s.skip(1), pat, with)
    }
}

/// Tests whether `pat` stands in `cs` at index `at`.
pub fn stands_at(cs: &[char], at: usize, pat: &[char]) -> (b: bool)
    requires
        at <= cs@.len(),
    ensures
        b == starts_with(cs@.skip(at as int), pat@),
{
    let ghost s = cs@.skip(at as int);
    if pat.len() > cs.len() - at {
        return false;
    }
    let n: usize = cs.len();
    for i in 0..pat.len()
        invariant
            n == cs@.len(),
            at + pat@.len() <= n,
            s == cs@.skip(at as int),
            forall|j: int| 0 <= j < i ==> s[j] == pat@[j],
    {
        if cs[at + i] != pat[i] {
            assert(s.take(pat@.len() as int)[i as int] != pat@[i as int]);
            return false;
        }
    }
    assert(s.take(pat@.len() as int) =~= pat@);
    true
}

/// Tests whether `pat` occurs in `cs`.
pub fn contains(cs: &[char], pat: &[char]) -> (b: bool)
    ensures
        b == contains_text(cs@, pat@),
{
    for i in 0..cs.len()
        invariant
            forall|j: int| 0 <= j < i ==> !#[trigger] starts_with(cs@.skip(j), pat@),
    {
        if stands_at(cs, i, pat) {
            return true;
        }
    }
    stands_at(cs, cs.len(), pat)
}

/// Replaces every occurrence of a non-empty `pat`.
pub fn replace(cs: &[char], pat: &[char], with: &[char]) -> (r: Vec<char>)
    requires
        pat@.len() > 0,
    ensures
        r@ == replaced(cs@, pat@, with@),
{
    let mut r: Vec<char> = Vec::new();
    let mut a: usize = 0;
    assert(cs@.skip(0) == cs@);
    assert(r@ + replaced(cs@, pat@, with@) == replaced(cs@, pat@, with@));
    while a < cs.len()
        invariant
            a <= cs@.len(),
            pat@.len() > 0,
            r@ + replaced(cs@.skip(a as int), pat@, with@) == replaced(cs@, pat@, with@),
        decreases cs@.len() - a,
    {
        let ghost s = cs@.skip(a as int);
        let ghost before = r@;
        if stands_at(cs, a, pat) {
            push_all(&mut r, with);
            let ghost tail = replaced(s.skip(pat@.len() as int), pat@, with@);
            assert(cs@.skip(a + pat@.len()) == s.skip(pat@.len() as int));
            assert((before + with@) + tail == before + (with@ + tail));
            a = a + pat.len();
        } else {
            r.push(cs[a]);
            let ghost tail = replaced(s.skip(1), pat@, with@);
            assert(cs@.skip(a + 1) == s.skip(1));
            assert(before.push(s[0]) + tail == before + (seq![s[0]] + tail));
            a = a + 1;
        }
    }
    assert(cs@.skip(a as int).len() == 0);
    assert(r@ + Seq::<char>::empty() == r@);
    r
}

/// Appends the characters of a slice.
pub fn push_all(v: &mut Vec<char>, cs: &[char])
    ensures
        final(v)@ == old(v)@ + cs@,
{
    let ghost start = v@;
    for i in 0..cs.len()
        invariant
            v@ == start + cs@.take(i as int),
    {
        v.push(cs[i]);
    }
    assert(cs@.take(cs@.len() as int) == cs@);
}

/// The lower-case form of an ASCII capital, any other character unchanged.
pub open spec fn ascii_lower(c: char) -> char {
    if 'A' <= c <= 'Z' {
        (c as u32 + 32) as char
    } else {
        c
    }
}

/// Lowers one ASCII capital.
pub fn lower_ascii(c: char) -> (r: char)
    ensures
        r == ascii_lower(c),
{
    if 'A' <= c && c <= 'Z' {
        ((c as u8) + 32) as char
    } else {
        c
    }
}

/// Lowers every ASCII capital of `cs`.
pub fn lower_all(cs: &[char]) -> (r: Vec<char>)
    ensures
        r@ == cs@.map_values(|c: char| ascii_lower(c)),
{
    let mut r: Vec<char> = Vec::new();
    for i in 0..cs.len()
        invariant
            r@ == cs@.take(i as int).map_values(|c: char| ascii_lower(c)),
    {
        r.push(lower_ascii(cs[i]));
    }
    assert(cs@.take(cs@.len() as int) == cs@);
    r
}

/// The digit with value `d`.
pub open spec fn digit(d: nat) -> char {
    (('0' as u32) + d) as char
}

/// `n` in decimal, without leading zeros.
pub open spec fn decimal(n: nat) -> Seq<char>
    decreases n,
{
    if n < 10 {
        seq![digit(n)]
    } else {
        decimal(n / 10).push(digit(n % 10))
    }
}

/// Writes a number in decimal.
pub fn write_decimal(n: u64) -> (r: Vec<char>)
    ensures
        r@ == decimal(n as nat),
    decreases n,
{
    let low: u8 = (n % 10) as u8;
    let c: char = (48u8 + low) as char;
    if n < 10 {
        let mut r: Vec<char> = Vec::new();
        r.push(c);
        assert(r@ == seq![digit(n as nat)]);
        r
    } else {
        let mut r = write_decimal(n / 10);
        r.push(c);
        r
    }
}

/// `n` blanks.
pub open spec fn blanks(n: int) -> Seq<char> {
    Seq::new(if n > 0 { n as nat } else { 0 }, |i: int| ' ')
}

/// `s` filled with blanks on the right up to `width` characters.
pub open spec fn padded_end(s: Seq<char>, width: nat) -> Seq<char> {
    s + blanks(width - s.len())
}

/// `s` filled with blanks on the left up to `width` characters.
pub open spec fn padded_start(s: Seq<char>, width: nat) -> Seq<char> {
    blanks(width - s.len()) + s
}

/// Appends a text and fills it with blanks on the right.
pub fn push_padded_end(v: &mut Vec<char>, cs: &[char], width: usize)
    ensures
        final(v)@ == old(v)@ + padded_end(cs@, width as nat),
{
    let ghost start = v@;
    push_all(v, cs);
    if width > cs.len() {
        push_blanks(v, width - cs.len());
    }
    assert(v@ == start + padded_end(cs@, width as nat));
}

/// Appends a text filled with blanks on the left.
pub fn push_padded_start(v: &mut Vec<char>, cs: &[char], width: usize)
    ensures
        final(v)@ == old(v)@ + padded_start(cs@, width as nat),
{
    let ghost start = v@;
    if width > cs.len() {
        push_blanks(v, width - cs.len());
    }
    push_all(v, cs);
    assert(v@ == start + padded_start(cs@, width as nat));
}

/// Appends `n` blanks.
pub fn push_blanks(v: &mut Vec<char>, n: usize)
    ensures
        final(v)@ == old(v)@ + blanks(n as int),
{
    let ghost start = v@;
    for i in 0..n
        invariant
            v@ == start + blanks(i as int),
    {
        v.push(' ');
        assert(v@ == start + blanks(i + 1));
    }
}

/// Appends the characters of a string.
pub fn push_str(v: &mut Vec<char>, s: &str)
    ensures
        final(v)@ == old(v)@ + s@,
{
    let cs = chars_of(s);
    push_all(v, cs.as_slice());
}

/// Whether a text is white space through and through.
pub open spec fn all_white(s: Seq<char>) -> bool {
    forall|i: int| 0 <= i < s.len() ==> white_space(#[trigger] s[i])
}

/// Law: blanks, tabs and line ends are white space; the other characters of
/// ASCII that are printed are not.
pub proof fn law_white_space(c: char)
    ensures
        white_space(' '),
        white_space('\t'),
        white_space('\n'),
        white_space('\r'),
        '!' <= c <= '~' ==> !white_space(c),
{
}

/// Law: trimming cuts white space at both ends and nothing else.
pub proof fn law_trimmed(before: Seq<char>, s: Seq<char>, after: Seq<char>)
    requires
        all_white(before),
        all_white(after),
        s.len() > 0 ==> !white_space(s[0]) && !white_space(s.last()),
    ensures
        trimmed(before + s + after) == s,
    decreases before.len() + after.len(),
{
    let x = before + s + after;
    if before.len() > 0 {
        let b = before.skip(1);
        assert forall|i: int| 0 <= i < b.len() implies white_space(#[trigger] b[i]) by {
            assert(b[i] == before[i + 1]);
        }
        law_trimmed(b, s, after);
        assert(x[0] == before[0]);
        assert(x.skip(1) =~= b + s + after);
    } else if s.len() == 0 {
        lemma_trimmed_white(x);
        assert(s =~= Seq::<char>::empty());
    } else {
        assert(x[0] == s[0]);
        assert(trimmed_start(x) == x);
        lemma_trimmed_end_white(s, after);
        assert(x =~= s + after);
    }
}

/// Nothing is left of white space.
proof fn lemma_trimmed_white(s: Seq<char>)
    requires
        all_white(s),
    ensures
        trimmed(s) == Seq::<char>::empty(),
    decreases s.len(),
{
    if s.len() > 0 {
        let t = s.skip(1);
        assert forall|i: int| 0 <= i < t.len() implies white_space(#[trigger] t[i]) by {
            assert(t[i] == s[i + 1]);
        }
        lemma_trimmed_white(t);
        assert(white_space(s[0]));
    } else {
        assert(s =~= Seq::<char>::empty());
    }
}

/// White space at the end is cut.
proof fn lemma_trimmed_end_white(s: Seq<char>, after: Seq<char>)
    requires
        s.len() > 0,
        !white_space(s.last()),
        all_white(after),
    ensures
        trimmed_end(s + after) == s,
    decreases after.len(),
{
    if after.len() == 0 {
        assert(s + after =~= s);
    } else {
        let a = after.drop_last();
        assert forall|i: int| 0 <= i < a.len() implies white_space(#[trigger] a[i]) by {
            assert(a[i] == after[i]);
        }
        lemma_trimmed_end_white(s, a);
        assert((s + after).last() == after.last());
        assert(white_space(after[after.len() - 1]));
        assert((s + after).drop_last() =~= s + a);
    }
}

/// Law: a line end cuts a text into a line and the lines after it; one carriage
/// return before it is no part of the line.
pub proof fn law_lines(line: Seq<char>, rest: Seq<char>)
    requires
        !line.contains('\n'),
    ensures
        lines(line + seq!['\n'] + rest) == seq![
            if line.len() > 0 && line.last() == '\r' {
                line.drop_last()
            } else {
                line
            },
        ] + lines(rest),
        line.len() > 0 ==> lines(line) == seq![line],
        lines(Seq::<char>::empty()) == Seq::<Seq<char>>::empty(),
{
    let s = line + seq!['\n'] + rest;
    crate::seqs::law_position(line, '\n', rest);
    assert(s.take(line.len() as int) =~= line);
    assert(s.skip(line.len() as int + 1) =~= rest);
}

/// A text is replaced in parts, as long as the pattern does not start in the
/// first part.
pub proof fn lemma_replaced_after(a: Seq<char>, s: Seq<char>, pat: Seq<char>, with: Seq<char>)
    requires
        pat.len() > 0,
        !a.contains(pat[0]),
    ensures
        replaced(a + s, pat, with) == a + replaced(s, pat, with),
    decreases a.len(),
{
    let x = a + s;
    if a.len() == 0 {
        assert(x =~= s);
        assert(a + replaced(s, pat, with) =~= replaced(s, pat, with));
    } else {
        let b = a.skip(1);
        assert(a.contains(a[0]));
        assert forall|c: char| b.contains(c) implies a.contains(c) by {
            let i = choose|i: int| 0 <= i < b.len() && b[i] == c;
            assert(a[i + 1] == c);
        }
        lemma_replaced_after(b, s, pat, with);
        assert(x[0] == a[0]);
        if starts_with(x, pat) {
            assert(x.take(pat.len() as int)[0] == pat[0]);
        }
        assert(x.skip(1) =~= b + s);
        assert(seq![a[0]] + (b + replaced(s, pat, with)) =~= a + replaced(s, pat, with));
    }
}

/// Law: a pattern is replaced where it stands, and what holds none of its first
/// character stays.
pub proof fn law_replaced(a: Seq<char>, b: Seq<char>, pat: Seq<char>, with: Seq<char>)
    requires
        pat.len() > 0,
        !a.contains(pat[0]),
    ensures
        replaced(a, pat, with) == a,
        replaced(a + pat + b, pat, with) == a + with + replaced(b, pat, with),
{
    let none = Seq::<char>::empty();
    lemma_replaced_after(a, none, pat, with);
    assert(a + none =~= a);
    assert(replaced(none, pat, with) =~= none);
    let s = pat + b;
    lemma_replaced_after(a, s, pat, with);
    assert(a + pat + b =~= a + s);
    assert(s.take(pat.len() as int) =~= pat);
    assert(s.skip(pat.len() as int) =~= b);
    assert(a + (with + replaced(b, pat, with)) =~= a + with + replaced(b, pat, with));
}

/// Law: a text occurs where it stands, and nowhere without its first character.
pub proof fn law_contains_text(a: Seq<char>, b: Seq<char>, pat: Seq<char>)
    ensures
        contains_text(a + pat + b, pat),
        pat.len() > 0 && !a.contains(pat[0]) ==> !contains_text(a, pat),
{
    let s = a + pat + b;
    let i = a.len() as int;
    assert(s.skip(i).take(pat.len() as int) =~= pat);
    assert(starts_with(s.skip(i), pat));
    if pat.len() > 0 && !a.contains(pat[0]) && contains_text(a, pat) {
        let k = choose|k: int| 0 <= k <= a.len() && #[trigger] starts_with(a.skip(k), pat);
        assert(a.skip(k).take(pat.len() as int)[0] == pat[0]);
        assert(a[k] == pat[0]);
        assert(a.contains(a[k]));
    }
}

/// The number that digits stand for.
pub open spec fn value_of(s: Seq<char>) -> int
    decreases s.len(),
{
    if s.len() == 0 {
        0
    } else {
        value_of(s.drop_last()) * 10 + (s.last() as int - '0' as int)
    }
}

/// Law: a number in decimal consists of digits that stand for it, and starts with
/// a zero only if it is zero.
pub proof fn law_decimal(n: nat)
    ensures
        decimal(n).len() > 0,
        value_of(decimal(n)) == n,
        forall|i: int| 0 <= i < decimal(n).len() ==> '0' <= #[trigger] decimal(n)[i] <= '9',
        decimal(n)[0] == '0' ==> n == 0,
    decreases n,
{
    reveal_with_fuel(value_of, 2);
    if n >= 10 {
        law_decimal(n / 10);
        let d = decimal(n / 10);
        assert(decimal(n).drop_last() =~= d);
        assert(decimal(n)[0] == d[0]);
    } else {
        assert(decimal(n).drop_last() =~= Seq::<char>::empty());
    }
}

/// Law: padding fills a text with blanks up to a width and cuts nothing.
pub proof fn law_padded(s: Seq<char>, width: nat)
    ensures
        ({
            let n = if s.len() < width {
                width
            } else {
                s.len()
            };
            let e = padded_end(s, width);
            let b = padded_start(s, width);
            &&& e.len() == n
            &&& e.take(s.len() as int) == s
            &&& forall|i: int| s.len() <= i < n ==> #[trigger] e[i] == ' '
            &&& b.len() == n
            &&& b.skip(n - s.len()) == s
            &&& forall|i: int| 0 <= i < n - s.len() ==> #[trigger] b[i] == ' '
        }),
{
    let e = padded_end(s, width);
    assert(e.take(s.len() as int) =~= s);
    let b = padded_start(s, width);
    assert(b.skip(b.len() - s.len()) =~= s);
}

/// Law: lowering changes capitals of ASCII, each to its small letter, and nothing
/// else.
pub proof fn law_ascii_lower(c: char)
    ensures
        'A' <= c <= 'Z' ==> 'a' <= ascii_lower(c) <= 'z' && ascii_lower(c) as int - 'a' as int
            == c as int - 'A' as int,
        !('A' <= c <= 'Z') ==> ascii_lower(c) == c,
{
}

/// Law: beyond ASCII, the next line, the no-break spaces and the spaces of Unicode from
/// the Ogham to the ideographic one are white space, and nothing else is.
pub proof fn law_wide_white_space(c: char)
    requires
        c as u32 >= 0x80,
    ensures
        white_space(c) <==> {
            let n = c as int;
            n == 133 || n == 160 || n == 5760 || 8192 <= n <= 8202 || 8232 <= n <= 8233 || n == 8239
                || n == 8287 || n == 12288
        },
{
}

} // verus!
