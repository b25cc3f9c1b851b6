//! Whether a trace is written, and where.
use vstd::prelude::*;
use vstd::utf8::encode_utf8;

use crate::file_path::{path_view, FilePath};
use crate::text::{
    ascii_lower, chars_of, lower_all, same_text, string_of, text_view, trim, trimmed,
};

verus! {

/// The environment variable that asks for a trace.
pub const ENV_VAR: &'static str = "TARGETER_TRACING";

/// Where the trace is written if the variable names no file.
pub const DEFAULT_PATH: &'static str = "targeter-trace.json";

/// A text with its ASCII capitals lowered.
pub open spec fn lowered(s: Seq<char>) -> Seq<char> {
    s.map_values(|c: char| ascii_lower(c))
}

/// Whether a value just says yes.
pub open spec fn truthy(s: Seq<char>) -> bool {
    let w = lowered(s);
    w == "1"@ || w == "true"@ || w == "yes"@ || w == "on"@
}

/// Whether a value says no.
pub open spec fn falsy(s: Seq<char>) -> bool {
    let w = lowered(s);
    w == "0"@ || w == "false"@ || w == "no"@ || w == "off"@
}

/// Tests whether a value just says yes.
pub fn is_truthy(value: &[char]) -> (b: bool)
    ensures
        b == truthy(value@),
{
    let w = lower_all(value);
    let s = w.as_slice();
    same_text(s, "1") || same_text(s, "true") || same_text(s, "yes") || same_text(s, "on")
}

/// Tests whether a value says no.
pub fn is_falsy(value: &[char]) -> (b: bool)
    ensures
        b == falsy(value@),
{
    let w = lower_all(value);
    let s = w.as_slice();
    same_text(s, "0") || same_text(s, "false") || same_text(s, "no") || same_text(s, "off")
}

/// Where the trace is written, by the value of the environment variable:
/// nowhere if it is not set, blank or says no.
pub open spec fn trace_file(raw: Option<Seq<char>>) -> Option<Seq<u8>> {
    match raw {
        None => None,
        Some(r) => {
            let value = trimmed(r);
            if value.len() == 0 || falsy(value) {
                None
            } else if truthy(value) {
                Some(encode_utf8(DEFAULT_PATH@))
            } else {
                Some(encode_utf8(value))
            }
        },
    }
}

/// Decides where the trace is written, from the value of `ENV_VAR`.
pub fn init(raw: &Option<String>) -> (r: Option<FilePath>)
    ensures
        path_view(r) == trace_file(text_view(*raw)),
{
    match raw {
        None => None,
        Some(text) => {
            let cs = chars_of(text.as_str());
            let value = trim(cs.as_slice());
            if value.len() == 0 || is_falsy(value) {
                None
            } else if is_truthy(value) {
                Some(FilePath::new(DEFAULT_PATH))
            } else {
                Some(FilePath::new(string_of(value).as_str()))
            }
        },
    }
}

/// Whether a character is a letter of ASCII, small or capital. `small` is that letter.
pub open spec fn is_letter(c: char, small: char) -> bool {
    c == small || c as int + 32 == small as int
}

/// Which texts lower to a word of small letters.
proof fn lemma_lowered(s: Seq<char>, word: Seq<char>)
    requires
        forall|i: int| 0 <= i < word.len() ==> 'a' <= #[trigger] word[i] <= 'z',
    ensures
        lowered(s) == word <==> s.len() == word.len() && (forall|i: int|
            0 <= i < word.len() ==> is_letter(#[trigger] s[i], word[i])),
{
    let w = lowered(s);
    assert forall|i: int| 0 <= i < s.len() && i < word.len() implies (#[trigger] w[i] == word[i]
        <==> is_letter(s[i], word[i])) by {
        crate::text::law_ascii_lower(s[i]);
    }
    if w == word {
        assert forall|i: int| 0 <= i < word.len() implies is_letter(#[trigger] s[i], word[i]) by {
            assert(w[i] == word[i]);
        }
    } else if s.len() == word.len() && (forall|i: int|
        0 <= i < word.len() ==> is_letter(#[trigger] s[i], word[i])) {
        assert forall|i: int| 0 <= i < word.len() implies w[i] == word[i] by {
            assert(is_letter(s[i], word[i]));
        }
        assert(w =~= word);
    }
}

/// Which texts lower to one digit.
proof fn lemma_lowered_digit(s: Seq<char>, digit: char)
    requires
        '0' <= digit <= '9',
    ensures
        lowered(s) == seq![digit] <==> s.len() == 1 && s[0] == digit,
{
    let w = lowered(s);
    if s.len() == 1 {
        crate::text::law_ascii_lower(s[0]);
        assert(w[0] == ascii_lower(s[0]));
        if s[0] == digit {
            assert(w =~= seq![digit]);
        }
    }
    if w == seq![digit] {
        assert(w.len() == 1);
        assert(w[0] == seq![digit][0]);
    }
}

/// Law: `1`, `true`, `yes` and `on` say yes, in small letters and capitals; nothing
/// else does.
pub proof fn law_truthy(s: Seq<char>)
    ensures
        truthy(s) <==> {
            ||| s.len() == 1 && s[0] == '1'
            ||| s.len() == 2 && is_letter(s[0], 'o') && is_letter(s[1], 'n')
            ||| s.len() == 3 && is_letter(s[0], 'y') && is_letter(s[1], 'e') && is_letter(
                s[2],
                's',
            )
            ||| s.len() == 4 && is_letter(s[0], 't') && is_letter(s[1], 'r') && is_letter(
                s[2],
                'u',
            ) && is_letter(s[3], 'e')
        },
{
    reveal_strlit("1");
    reveal_strlit("true");
    reveal_strlit("yes");
    reveal_strlit("on");
    lemma_lowered_digit(s, '1');
    assert("1"@ =~= seq!['1']);
    lemma_lowered(s, "true"@);
    lemma_lowered(s, "yes"@);
    lemma_lowered(s, "on"@);
}

/// Law: `0`, `false`, `no` and `off` say no, in small letters and capitals; nothing
/// else does.
pub proof fn law_falsy(s: Seq<char>)
    ensures
        falsy(s) <==> {
            ||| s.len() == 1 && s[0] == '0'
            ||| s.len() == 2 && is_letter(s[0], 'n') && is_letter(s[1], 'o')
            ||| s.len() == 3 && is_letter(s[0], 'o') && is_letter(s[1], 'f') && is_letter(
                s[2],
                'f',
            )
            ||| s.len() == 5 && is_letter(s[0], 'f') && is_letter(s[1], 'a') && is_letter(
                s[2],
                'l',
            ) && is_letter(s[3], 's') && is_letter(s[4], 'e')
        },
{
    reveal_strlit("0");
    reveal_strlit("false");
    reveal_strlit("no");
    reveal_strlit("off");
    lemma_lowered_digit(s, '0');
    assert("0"@ =~= seq!['0']);
    lemma_lowered(s, "false"@);
    lemma_lowered(s, "no"@);
    lemma_lowered(s, "off"@);
}

/// Law: the trace goes to the file that the variable names, white space around the
/// name aside. A word for yes names the default file. A word for no, a blank value and
/// a variable that is not set ask for no trace.
pub proof fn law_trace_file(before: Seq<char>, s: Seq<char>, after: Seq<char>)
    requires
        crate::text::all_white(before),
        crate::text::all_white(after),
        s.len() > 0,
        !crate::text::white_space(s[0]),
        !crate::text::white_space(s.last()),
    ensures
        trace_file(None) is None,
        trace_file(Some(before)) is None,
        falsy(s) ==> trace_file(Some(before + s + after)) is None,
        truthy(s) ==> trace_file(Some(before + s + after)) == Some(
            encode_utf8("targeter-trace.json"@),
        ),
        !falsy(s) && !truthy(s) ==> trace_file(Some(before + s + after)) == Some(encode_utf8(s)),
{
    crate::text::law_trimmed(before, s, after);
    let none = Seq::<char>::empty();
    crate::text::law_trimmed(before, none, none);
    assert(before + none + none =~= before);
    if falsy(s) && truthy(s) {
        law_truthy(s);
        law_falsy(s);
    }
}

} // verus!
