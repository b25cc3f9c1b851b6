//! The filter of the table: a regular expression that entries are held against.
use regex::Regex;
use vstd::prelude::*;

use crate::file_path::lossy_text;
use crate::scan::{entries_view, project_name_of, EntryView, TargetEntry};
use crate::text::{chars_of, lines, split_lines, string_of};

verus! {

/// `regex::Regex`, a compiled regular expression.
#[verifier::external_type_specification]
#[verifier::external_body]
pub struct ExRegex(regex::Regex);

/// `regex::Error`, why a pattern was rejected.
#[verifier::external_type_specification]
#[verifier::external_body]
pub struct ExRegexError(regex::Error);

/// What `regex::Regex::new` returns for a pattern.
pub uninterp spec fn compiled(pattern: Seq<char>) -> Result<regex::Regex, regex::Error>;

/// What `regex::Regex::is_match` returns for a compiled pattern and a text.
pub uninterp spec fn matches_text(re: regex::Regex, text: Seq<char>) -> bool;

/// The message of a `regex::Error`, as its `Display` writes it.
pub uninterp spec fn error_message(e: regex::Error) -> Seq<char>;

/// `regex::Regex::new`: compiles a pattern. The result depends on the pattern
/// alone; which patterns are accepted is left to the crate.
#[verifier::external_body]
fn regex_new(pattern: &str) -> (r: Result<Regex, regex::Error>)
    ensures
        r == compiled(pattern@),
{
    Regex::new(pattern)
}

/// `regex::Regex::is_match`: whether the pattern matches anywhere in a text.
/// The result depends on the compiled pattern and the text alone.
#[verifier::external_body]
fn is_match(re: &Regex, text: &str) -> (b: bool)
    ensures
        b == matches_text(*re, text@),
{
    re.is_match(text)
}

/// `ToString::to_string` on a `regex::Error`: its message.
#[verifier::external_body]
fn error_to_string(e: &regex::Error) -> (s: String)
    ensures
        s@ == error_message(*e),
{
    e.to_string()
}

/// What compiling a pattern comes to: the compiled pattern or the message of
/// the error.
pub open spec fn compile_outcome(pattern: Seq<char>) -> Result<regex::Regex, Seq<char>> {
    match compiled(pattern) {
        Ok(re) => Ok(re),
        Err(e) => Err(error_message(e)),
    }
}

/// The view of an outcome.
pub open spec fn outcome_view(r: Result<regex::Regex, String>) -> Result<regex::Regex, Seq<char>> {
    match r {
        Ok(re) => Ok(re),
        Err(m) => Err(m@),
    }
}

/// Compiles a pattern.
pub fn compile(pattern: &str) -> (r: Result<Regex, String>)
    ensures
        outcome_view(r) == compile_outcome(pattern@),
{
    match regex_new(pattern) {
        Ok(re) => Ok(re),
        Err(e) => Err(error_to_string(&e)),
    }
}

/// The first line of a message, or a standing one where it has none.
pub open spec fn first_line(message: Seq<char>) -> Seq<char> {
    if lines(message).len() > 0 {
        lines(message)[0]
    } else {
        "invalid regex"@
    }
}

/// Cuts a message down to its first line.
pub fn first_line_of(message: &str) -> (s: String)
    ensures
        s@ == first_line(message@),
{
    let cs = chars_of(message);
    let ls = split_lines(cs.as_slice());
    assert(lines(message@) == crate::text::texts(ls@));
    if ls.len() > 0 {
        string_of(ls[0].as_slice())
    } else {
        "invalid regex".to_owned()
    }
}

/// Whether an entry passes the filter: its project name, its project path or
/// its output directory matches.
pub open spec fn passes(filter: Option<regex::Regex>, e: EntryView) -> bool {
    match filter {
        None => true,
        Some(re) => {
            ||| matches_text(re, project_name_of(e.project_path))
            ||| matches_text(re, lossy_text(e.project_path))
            ||| matches_text(re, lossy_text(e.target_dir))
        },
    }
}

/// Which entries pass the filter.
pub open spec fn pass_flags(filter: Option<regex::Regex>, s: Seq<EntryView>) -> Seq<bool> {
    s.map_values(|e: EntryView| passes(filter, e))
}

/// Tests which entries pass the filter.
pub fn flags_of(filter: &Option<Regex>, entries: &Vec<TargetEntry>) -> (r: Vec<bool>)
    ensures
        r@ == pass_flags(*filter, entries_view(entries@)),
{
    let ghost all = entries_view(entries@);
    let mut r: Vec<bool> = Vec::new();
    for i in 0..entries.len()
        invariant
            all == entries_view(entries@),
            r@ == pass_flags(*filter, all.take(i as int)),
    {
        let e = &entries[i];
        assert(all[i as int] == e@);
        let b: bool = match filter {
            None => true,
            Some(re) => is_match(re, e.project_name().as_str()) || is_match(
                re,
                e.project_path.to_text().as_str(),
            ) || is_match(re, e.target_dir.to_text().as_str()),
        };
        r.push(b);
        assert(r@ =~= pass_flags(*filter, all.take(i + 1)));
    }
    assert(all.take(all.len() as int) =~= all);
    r
}

/// The indices of the flags that are set, in order.
pub open spec fn rows(flags: Seq<bool>) -> Seq<usize>
    decreases flags.len(),
{
    if flags.len() == 0 {
        Seq::empty()
    } else if flags.last() {
        rows(flags.drop_last()).push((flags.len() - 1) as usize)
    } else {
        rows(flags.drop_last())
    }
}

/// Lists the indices of the flags that are set.
pub fn rows_of(flags: &Vec<bool>) -> (r: Vec<usize>)
    ensures
        r@ == rows(flags@),
{
    let mut r: Vec<usize> = Vec::new();
    assert(flags@.take(0) =~= Seq::<bool>::empty());
    for i in 0..flags.len()
        invariant
            r@ == rows(flags@.take(i as int)),
    {
        assert(flags@.take(i + 1).drop_last() =~= flags@.take(i as int));
        assert(flags@.take(i + 1).last() == flags@[i as int]);
        if flags[i] {
            r.push(i);
        }
    }
    assert(flags@.take(flags@.len() as int) =~= flags@);
    r
}

/// How many flags are set.
pub open spec fn count_set(flags: Seq<bool>) -> nat
    decreases flags.len(),
{
    if flags.len() == 0 {
        0
    } else {
        count_set(flags.drop_last()) + if flags.last() {
            1nat
        } else {
            0nat
        }
    }
}

/// As many rows are shown as flags are set.
pub proof fn lemma_rows_len(flags: Seq<bool>)
    ensures
        rows(flags).len() == count_set(flags),
    decreases flags.len(),
{
    if flags.len() > 0 {
        lemma_rows_len(flags.drop_last());
    }
}

/// Law: the rows shown are exactly the set flags, each once, in rising order.
pub proof fn law_rows(flags: Seq<bool>)
    requires
        flags.len() <= usize::MAX,
    ensures
        rows(flags).len() == count_set(flags),
        forall|k: int|
            0 <= k < rows(flags).len() ==> (#[trigger] rows(flags)[k]) < flags.len()
                && flags[rows(flags)[k] as int],
        forall|j: int, k: int|
            0 <= j < k < rows(flags).len() ==> #[trigger] rows(flags)[j] < #[trigger] rows(
                flags,
            )[k],
        forall|i: int|
            0 <= i < flags.len() && #[trigger] flags[i] ==> rows(flags).contains(i as usize),
    decreases flags.len(),
{
    if flags.len() > 0 {
        let d = flags.drop_last();
        law_rows(d);
        let r = rows(flags);
        let q = rows(d);
        assert forall|k: int| 0 <= k < r.len() implies (#[trigger] r[k]) < flags.len()
            && flags[r[k] as int] by {
            if k < q.len() {
                assert(r[k] == q[k]);
                assert(d[q[k] as int]);
            }
        }
        assert forall|j: int, k: int| 0 <= j < k < r.len() implies #[trigger] r[j]
            < #[trigger] r[k] by {
            assert(r[j] == q[j]);
            if k < q.len() {
                assert(r[k] == q[k]);
            }
        }
        assert forall|i: int| 0 <= i < flags.len() && #[trigger] flags[i] implies r.contains(
            i as usize,
        ) by {
            if i < d.len() {
                assert(d[i]);
                assert(q.contains(i as usize));
                let k = choose|k: int| 0 <= k < q.len() && q[k] == i as usize;
                assert(r[k] == i as usize);
            } else {
                assert(r[q.len() as int] == i as usize);
            }
        }
    }
}

/// Law: an entry passes a filter if the pattern matches its project's name, if it
/// matches its project's path and if it matches its output directory, each by
/// itself, and does not pass if it matches none of them. Without a filter it
/// passes.
pub proof fn law_passes(re: regex::Regex, e: EntryView)
    ensures
        passes(None, e),
        matches_text(re, project_name_of(e.project_path)) ==> passes(Some(re), e),
        matches_text(re, lossy_text(e.project_path)) ==> passes(Some(re), e),
        matches_text(re, lossy_text(e.target_dir)) ==> passes(Some(re), e),
        passes(Some(re), e) ==> matches_text(re, project_name_of(e.project_path)) || matches_text(
            re,
            lossy_text(e.project_path),
        ) || matches_text(re, lossy_text(e.target_dir)),
{
}

/// Law: the rows of a filter are those of the entries that a pattern matches by
/// name, by path or by output directory, each once and in order.
pub proof fn law_filtered_rows(re: regex::Regex, s: Seq<EntryView>, i: int)
    requires
        s.len() <= usize::MAX,
        0 <= i < s.len(),
    ensures
        rows(pass_flags(Some(re), s)).contains(i as usize) <==> {
            ||| matches_text(re, project_name_of(s[i].project_path))
            ||| matches_text(re, lossy_text(s[i].project_path))
            ||| matches_text(re, lossy_text(s[i].target_dir))
        },
        rows(pass_flags(None, s)).contains(i as usize),
        forall|j: int, k: int|
            0 <= j < k < rows(pass_flags(Some(re), s)).len() ==> #[trigger] rows(
                pass_flags(Some(re), s),
            )[j] < #[trigger] rows(pass_flags(Some(re), s))[k],
{
    let flags = pass_flags(Some(re), s);
    law_rows(flags);
    law_rows(pass_flags(None, s));
    law_passes(re, s[i]);
    assert(flags[i] == passes(Some(re), s[i]));
    assert(pass_flags(None, s)[i]);
    if rows(flags).contains(i as usize) {
        let k = choose|k: int| 0 <= k < rows(flags).len() && rows(flags)[k] == i as usize;
        assert(flags[rows(flags)[k] as int]);
    }
}

/// Law: the first line of a message is what stands before its first line end, and
/// a message without one is its own first line.
pub proof fn law_first_line(line: Seq<char>, rest: Seq<char>)
    requires
        !line.contains('\n'),
        line.len() > 0,
        line.last() != '\r',
    ensures
        first_line(line + seq!['\n'] + rest) == line,
        first_line(line) == line,
        first_line(Seq::empty()) == "invalid regex"@,
{
    crate::text::law_lines(line, rest);
}

/// Law: what compiling comes to is what the compiler returns: the pattern, or the
/// message of its error.
pub proof fn law_compile_outcome(pattern: Seq<char>)
    ensures
        compiled(pattern) matches Ok(re) ==> compile_outcome(pattern) == Ok::<
            regex::Regex,
            Seq<char>,
        >(re),
        compiled(pattern) matches Err(e) ==> compile_outcome(pattern) == Err::<
            regex::Regex,
            Seq<char>,
        >(error_message(e)),
{
}

} // verus!
