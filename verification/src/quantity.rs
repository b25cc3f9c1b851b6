//! Sizes like `100MB` and ages like `30d`.
use vstd::arithmetic::power2::pow2;
use vstd::prelude::*;

use crate::text::{
    all_white, chars_of, push_str, same_text, string_of, trim, trimmed, trimmed_end,
    trimmed_start, white_space,
};

verus! {

/// What `str::to_uppercase` returns.
pub uninterp spec fn upper_text(s: Seq<char>) -> Seq<char>;

/// What `str::to_lowercase` returns.
pub uninterp spec fn lower_text(s: Seq<char>) -> Seq<char>;

/// What `char::is_alphabetic` returns.
pub uninterp spec fn alphabetic(c: char) -> bool;

/// Whether a character is one of ASCII.
pub open spec fn ascii(c: char) -> bool {
    (c as u32) < 128
}

/// Whether a text holds characters of ASCII only.
pub open spec fn all_ascii(s: Seq<char>) -> bool {
    forall|i: int| 0 <= i < s.len() ==> ascii(#[trigger] s[i])
}

/// The capital of a small ASCII letter, any other character unchanged.
pub open spec fn ascii_upper(c: char) -> char {
    if 'a' <= c <= 'z' {
        (c as u32 - 32) as char
    } else {
        c
    }
}

/// `str::to_uppercase`: the capitals of a text by Unicode. On ASCII each small
/// letter turns into its capital and all else stays.
#[verifier::external_body]
fn to_uppercase(s: &str) -> (r: String)
    ensures
        r@ == upper_text(s@),
        all_ascii(s@) ==> r@ == s@.map_values(|c: char| ascii_upper(c)),
{
    s.to_uppercase()
}

/// `str::to_lowercase`: the small letters of a text by Unicode. On ASCII each
/// capital turns into its small letter and all else stays.
#[verifier::external_body]
fn to_lowercase(s: &str) -> (r: String)
    ensures
        r@ == lower_text(s@),
        all_ascii(s@) ==> r@ == s@.map_values(|c: char| crate::text::ascii_lower(c)),
{
    s.to_lowercase()
}

/// `char::is_alphabetic`: whether a character has the Unicode property. Of
/// ASCII exactly the letters have it.
#[verifier::external_body]
fn is_alphabetic(c: char) -> (b: bool)
    ensures
        b == alphabetic(c),
        ascii(c) ==> b == ('a' <= c <= 'z' || 'A' <= c <= 'Z'),
{
    c.is_alphabetic()
}

/// A text without its blanks.
pub open spec fn without_blanks(s: Seq<char>) -> Seq<char>
    decreases s.len(),
{
    if s.len() == 0 {
        s
    } else if s.last() == ' ' {
        without_blanks(s.drop_last())
    } else {
        without_blanks(s.drop_last()).push(s.last())
    }
}

/// Removes the blanks of a text.
fn remove_blanks(cs: &[char]) -> (r: Vec<char>)
    ensures
        r@ == without_blanks(cs@),
{
    let mut r: Vec<char> = Vec::new();
    assert(cs@.take(0) =~= Seq::<char>::empty());
    for i in 0..cs.len()
        invariant
            r@ == without_blanks(cs@.take(i as int)),
    {
        assert(cs@.take(i + 1).drop_last() =~= cs@.take(i as int));
        assert(cs@.take(i + 1).last() == cs@[i as int]);
        if cs[i] != ' ' {
            r.push(cs[i]);
        }
    }
    assert(cs@.take(cs@.len() as int) =~= cs@);
    r
}

/// How many characters stand before the first alphabetic one.
pub open spec fn number_len(s: Seq<char>) -> nat
    decreases s.len(),
{
    if s.len() == 0 || alphabetic(s[0]) {
        0
    } else {
        1 + number_len(s.skip(1))
    }
}

/// Whether a character is a letter of ASCII.
pub open spec fn ascii_letter(c: char) -> bool {
    'a' <= c <= 'z' || 'A' <= c <= 'Z'
}

/// How many characters stand before the first letter of ASCII.
pub open spec fn ascii_number_len(s: Seq<char>) -> nat
    decreases s.len(),
{
    if s.len() == 0 || ascii_letter(s[0]) {
        0
    } else {
        1 + ascii_number_len(s.skip(1))
    }
}

/// A quantity in two parts: the text of its number, and its unit.
#[derive(Debug)]
pub struct Parts {
    pub number: String,
    pub unit: String,
}

/// The two parts of a quantity in one case and without blanks; nothing if
/// there is none.
pub open spec fn parts_of(s: Seq<char>) -> Option<(Seq<char>, Seq<char>)> {
    if s.len() == 0 {
        None
    } else {
        Some((s.take(number_len(s) as int), s.skip(number_len(s) as int)))
    }
}

/// The two parts of a quantity that is written in ASCII.
pub open spec fn ascii_parts_of(s: Seq<char>) -> Option<(Seq<char>, Seq<char>)> {
    if s.len() == 0 {
        None
    } else {
        Some((s.take(ascii_number_len(s) as int), s.skip(ascii_number_len(s) as int)))
    }
}

/// The view of optional parts.
pub open spec fn parts_view(p: Option<Parts>) -> Option<(Seq<char>, Seq<char>)> {
    match p {
        Some(x) => Some((x.number@, x.unit@)),
        None => None,
    }
}

/// Cuts a quantity, in one case and without blanks, before its unit.
pub fn cut_parts(cs: &[char]) -> (r: Option<Parts>)
    ensures
        parts_view(r) == parts_of(cs@),
        all_ascii(cs@) ==> parts_view(r) == ascii_parts_of(cs@),
{
    if cs.len() == 0 {
        return None;
    }
    let mut k: usize = 0;
    assert(cs@.skip(0) =~= cs@);
    while k < cs.len() && !is_alphabetic(cs[k])
        invariant
            k <= cs@.len(),
            number_len(cs@) == k + number_len(cs@.skip(k as int)),
            all_ascii(cs@) ==> ascii_number_len(cs@) == k + ascii_number_len(cs@.skip(k as int)),
        decreases cs@.len() - k,
    {
        assert(cs@.skip(k as int).skip(1) =~= cs@.skip(k + 1));
        assert(cs@.skip(k as int)[0] == cs@[k as int]);
        k += 1;
    }
    proof {
        if k < cs@.len() {
            assert(cs@.skip(k as int)[0] == cs@[k as int]);
        }
    }
    let number = vstd::slice::slice_subrange(cs, 0, k);
    let unit = vstd::slice::slice_subrange(cs, k, cs.len());
    assert(number@ =~= cs@.take(k as int));
    assert(unit@ =~= cs@.skip(k as int));
    Some(Parts { number: string_of(number), unit: string_of(unit) })
}

/// The parts of a size: in capitals and without blanks.
pub open spec fn size_parts_of(raw: Seq<char>) -> Option<(Seq<char>, Seq<char>)> {
    parts_of(without_blanks(upper_text(trimmed(raw))))
}

/// The parts of an age: in small letters and without blanks.
pub open spec fn age_parts_of(raw: Seq<char>) -> Option<(Seq<char>, Seq<char>)> {
    parts_of(without_blanks(lower_text(trimmed(raw))))
}

/// The parts of a size that is written in ASCII.
pub open spec fn ascii_size_parts(raw: Seq<char>) -> Option<(Seq<char>, Seq<char>)> {
    ascii_parts_of(without_blanks(trimmed(raw).map_values(|c: char| ascii_upper(c))))
}

/// The parts of an age that is written in ASCII.
pub open spec fn ascii_age_parts(raw: Seq<char>) -> Option<(Seq<char>, Seq<char>)> {
    ascii_parts_of(without_blanks(trimmed(raw).map_values(|c: char| crate::text::ascii_lower(c))))
}

/// What is left of ASCII after trimming is ASCII.
proof fn lemma_trimmed_ascii(s: Seq<char>)
    requires
        all_ascii(s),
    ensures
        all_ascii(trimmed(s)),
{
    lemma_trimmed_start_ascii(s);
    lemma_trimmed_end_ascii(trimmed_start(s));
}

proof fn lemma_trimmed_start_ascii(s: Seq<char>)
    requires
        all_ascii(s),
    ensures
        all_ascii(trimmed_start(s)),
    decreases s.len(),
{
    if s.len() > 0 && white_space(s[0]) {
        let t = s.skip(1);
        assert forall|i: int| 0 <= i < t.len() implies ascii(#[trigger] t[i]) by {
            assert(t[i] == s[i + 1]);
        }
        lemma_trimmed_start_ascii(t);
    }
}

proof fn lemma_trimmed_end_ascii(s: Seq<char>)
    requires
        all_ascii(s),
    ensures
        all_ascii(trimmed_end(s)),
    decreases s.len(),
{
    if s.len() > 0 && white_space(s.last()) {
        let t = s.drop_last();
        assert forall|i: int| 0 <= i < t.len() implies ascii(#[trigger] t[i]) by {
            assert(t[i] == s[i]);
        }
        lemma_trimmed_end_ascii(t);
    }
}

/// What is left of ASCII without its blanks is ASCII.
proof fn lemma_without_blanks_ascii(s: Seq<char>)
    requires
        all_ascii(s),
    ensures
        all_ascii(without_blanks(s)),
    decreases s.len(),
{
    if s.len() > 0 {
        let t = s.drop_last();
        assert forall|i: int| 0 <= i < t.len() implies ascii(#[trigger] t[i]) by {
            assert(t[i] == s[i]);
        }
        lemma_without_blanks_ascii(t);
        assert(ascii(s[s.len() - 1]));
    }
}

/// Takes a size apart.
pub fn size_parts(raw: &str) -> (r: Option<Parts>)
    ensures
        parts_view(r) == size_parts_of(raw@),
        all_ascii(raw@) ==> parts_view(r) == ascii_size_parts(raw@),
{
    let cs = chars_of(raw);
    let kept = string_of(trim(cs.as_slice()));
    let upper = chars_of(to_uppercase(kept.as_str()).as_str());
    let bare = remove_blanks(upper.as_slice());
    proof {
        if all_ascii(raw@) {
            lemma_trimmed_ascii(raw@);
            assert(all_ascii(upper@));
            lemma_without_blanks_ascii(upper@);
        }
    }
    cut_parts(bare.as_slice())
}

/// Takes an age apart.
pub fn age_parts(raw: &str) -> (r: Option<Parts>)
    ensures
        parts_view(r) == age_parts_of(raw@),
        all_ascii(raw@) ==> parts_view(r) == ascii_age_parts(raw@),
{
    let cs = chars_of(raw);
    let kept = string_of(trim(cs.as_slice()));
    let lower = chars_of(to_lowercase(kept.as_str()).as_str());
    let bare = remove_blanks(lower.as_slice());
    proof {
        if all_ascii(raw@) {
            lemma_trimmed_ascii(raw@);
            assert(all_ascii(lower@));
            lemma_without_blanks_ascii(lower@);
        }
    }
    cut_parts(bare.as_slice())
}

/// Whether an answer means yes: `y` or `yes`, in any case.
pub open spec fn means_yes(line: Seq<char>) -> bool {
    let word = lower_text(trimmed(line));
    word == "y"@ || word == "yes"@
}

/// Whether an answer in ASCII means yes.
pub open spec fn ascii_means_yes(line: Seq<char>) -> bool {
    let word = trimmed(line).map_values(|c: char| crate::text::ascii_lower(c));
    word == "y"@ || word == "yes"@
}

/// Tests whether an answer means yes.
pub fn is_yes(line: &str) -> (b: bool)
    ensures
        b == means_yes(line@),
        all_ascii(line@) ==> b == ascii_means_yes(line@),
{
    proof {
        if all_ascii(line@) {
            lemma_trimmed_ascii(line@);
        }
    }
    let cs = chars_of(line);
    let kept = string_of(trim(cs.as_slice()));
    let word = chars_of(to_lowercase(kept.as_str()).as_str());
    same_text(word.as_slice(), "y") || same_text(word.as_slice(), "yes")
}

/// What the text of a number comes to in floating point, taken apart: a
/// finite number is `mantissa` times 2 to the power of `exponent`.
#[derive(Clone, Copy, Debug, PartialEq, Eq, Structural)]
pub enum Number {
    /// The text is no number.
    Invalid,
    /// The text stands for no number.
    Nan,
    Finite {
        negative: bool,
        mantissa: u64,
        exponent: i32,
    },
    Infinite {
        negative: bool,
    },
}

/// Why a quantity is rejected.
#[derive(Clone, Copy, Debug, PartialEq, Eq, Structural)]
pub enum QuantityError {
    /// There is nothing in it.
    Empty,
    /// Its number is none, or below zero.
    Invalid,
    /// Its unit is unknown.
    InvalidUnit,
}

/// Whether a number is below zero.
pub open spec fn below_zero(n: Number) -> bool {
    match n {
        Number::Finite { negative, mantissa, .. } => negative && mantissa > 0,
        Number::Infinite { negative } => negative,
        _ => false,
    }
}

/// The bytes in a unit of size. Units are binary, also the decimal ones.
pub open spec fn size_factor(unit: Seq<char>) -> Option<u64> {
    if unit == ""@ || unit == "B"@ {
        Some(1)
    } else if unit == "K"@ || unit == "KB"@ || unit == "KIB"@ {
        Some(0x400)
    } else if unit == "M"@ || unit == "MB"@ || unit == "MIB"@ {
        Some(0x10_0000)
    } else if unit == "G"@ || unit == "GB"@ || unit == "GIB"@ {
        Some(0x4000_0000)
    } else if unit == "T"@ || unit == "TB"@ || unit == "TIB"@ {
        Some(0x100_0000_0000)
    } else {
        None
    }
}

/// The seconds in a unit of age. Without a unit it is days, months have 30
/// days and years 365.
pub open spec fn age_factor(unit: Seq<char>) -> Option<u64> {
    if unit == ""@ || unit == "d"@ || unit == "day"@ || unit == "days"@ {
        Some(86_400)
    } else if unit == "s"@ || unit == "sec"@ || unit == "secs"@ || unit == "second"@ || unit
        == "seconds"@ {
        Some(1)
    } else if unit == "m"@ || unit == "min"@ || unit == "mins"@ || unit == "minute"@ || unit
        == "minutes"@ {
        Some(60)
    } else if unit == "h"@ || unit == "hour"@ || unit == "hours"@ {
        Some(3_600)
    } else if unit == "w"@ || unit == "week"@ || unit == "weeks"@ {
        Some(604_800)
    } else if unit == "mo"@ || unit == "mon"@ || unit == "mons"@ || unit == "month"@ || unit
        == "months"@ {
        Some(2_592_000)
    } else if unit == "y"@ || unit == "yr"@ || unit == "yrs"@ || unit == "year"@ || unit
        == "years"@ {
        Some(31_536_000)
    } else {
        None
    }
}

/// Finds the bytes in a unit of size.
fn find_size_factor(unit: &str) -> (r: Option<u64>)
    ensures
        r == size_factor(unit@),
{
    let cs = chars_of(unit);
    let u = cs.as_slice();
    if same_text(u, "") || same_text(u, "B") {
        Some(1)
    } else if same_text(u, "K") || same_text(u, "KB") || same_text(u, "KIB") {
        Some(0x400)
    } else if same_text(u, "M") || same_text(u, "MB") || same_text(u, "MIB") {
        Some(0x10_0000)
    } else if same_text(u, "G") || same_text(u, "GB") || same_text(u, "GIB") {
        Some(0x4000_0000)
    } else if same_text(u, "T") || same_text(u, "TB") || same_text(u, "TIB") {
        Some(0x100_0000_0000)
    } else {
        None
    }
}

/// Finds the seconds in a unit of age.
fn find_age_factor(unit: &str) -> (r: Option<u64>)
    ensures
        r == age_factor(unit@),
{
    let cs = chars_of(unit);
    let u = cs.as_slice();
    if same_text(u, "") || same_text(u, "d") || same_text(u, "day") || same_text(u, "days") {
        Some(86_400)
    } else if same_text(u, "s") || same_text(u, "sec") || same_text(u, "secs") || same_text(
        u,
        "second",
    ) || same_text(u, "seconds") {
        Some(1)
    } else if same_text(u, "m") || same_text(u, "min") || same_text(u, "mins") || same_text(
        u,
        "minute",
    ) || same_text(u, "minutes") {
        Some(60)
    } else if same_text(u, "h") || same_text(u, "hour") || same_text(u, "hours") {
        Some(3_600)
    } else if same_text(u, "w") || same_text(u, "week") || same_text(u, "weeks") {
        Some(604_800)
    } else if same_text(u, "mo") || same_text(u, "mon") || same_text(u, "mons") || same_text(
        u,
        "month",
    ) || same_text(u, "months") {
        Some(2_592_000)
    } else if same_text(u, "y") || same_text(u, "yr") || same_text(u, "yrs") || same_text(
        u,
        "year",
    ) || same_text(u, "years") {
        Some(31_536_000)
    } else {
        None
    }
}

/// The first number that 53 bits do not hold.
pub const MANTISSA_END: u128 = 0x20_0000_0000_0000;

/// How many of the lowest bits of a number 53 bits do not hold.
pub open spec fn excess(p: nat) -> nat
    decreases p,
{
    if p < MANTISSA_END {
        0
    } else {
        1 + excess(p / 2)
    }
}

/// A number rounded to 53 bits, without the bits that were cut: to the
/// nearest, and to the even one where two are as near.
pub open spec fn nearest(p: nat) -> nat {
    let unit = pow2(excess(p));
    let q = p / unit;
    let r = p % unit;
    if 2 * r > unit || (2 * r == unit && q % 2 == 1) {
        q + 1
    } else {
        q
    }
}

/// `q` times 2 to the power of `x`, rounded to a whole number, halves up.
pub open spec fn whole(q: nat, x: int) -> nat {
    if x >= 0 {
        q * pow2(x as nat)
    } else {
        (q / pow2((-x - 1) as nat) + 1) / 2
    }
}

/// A number as far as 64 bits hold it.
pub open spec fn saturated(n: nat) -> u64 {
    if n > u64::MAX {
        u64::MAX
    } else {
        n as u64
    }
}

/// A number times a factor, computed in floating point with 53 bits and
/// rounded to a whole number that 64 bits hold.
pub open spec fn scaled(n: Number, factor: u64) -> u64 {
    match n {
        Number::Finite { mantissa, exponent, .. } => {
            let p = (mantissa * factor) as nat;
            saturated(whole(nearest(p), exponent + excess(p)))
        },
        Number::Infinite { .. } => u64::MAX,
        _ => 0,
    }
}

/// Rounds to 53 bits. Returns the rounded number and how many bits were cut.
fn round_to_nearest(p: u128) -> (r: (u128, u32))
    ensures
        r.0 == nearest(p as nat),
        r.1 == excess(p as nat),
        r.0 <= MANTISSA_END,
        r.1 <= 128,
{
    let mut t: u128 = p;
    let mut unit: u128 = 1;
    let mut s: u32 = 0;
    proof {
        vstd::arithmetic::power2::lemma2_to64();
        vstd::arithmetic::power2::lemma2_to64_rest();
        vstd::arithmetic::power2::lemma_pow2_adds(64, 64);
        assert(p as nat / 1 == p);
    }
    while t >= MANTISSA_END
        invariant
            unit == pow2(s as nat),
            t == p as nat / pow2(s as nat),
            excess(p as nat) == s + excess(t as nat),
            unit >= 1,
            unit == 1 || 2 * unit <= p,
            s <= 128,
            t < pow2((128 - s) as nat),
            pow2(0) == 1,
        decreases t,
    {
        proof {
            assert(s < 128);
            vstd::arithmetic::power2::lemma_pow2_unfold((s + 1) as nat);
            vstd::arithmetic::power2::lemma_pow2_unfold((128 - s) as nat);
            vstd::arithmetic::div_mod::lemma_div_denominator(p as int, unit as int, 2);
            vstd::arithmetic::div_mod::lemma_fundamental_div_mod(p as int, unit as int);
            assert(4 * unit <= p) by (nonlinear_arith)
                requires
                    unit * t <= p,
                    t >= 4,
                    unit >= 1,
            ;
        }
        unit = unit * 2;
        t = t / 2;
        s = s + 1;
    }
    proof {
        vstd::arithmetic::div_mod::lemma_fundamental_div_mod(p as int, unit as int);
        vstd::arithmetic::mul::lemma_mul_is_commutative(t as int, unit as int);
    }
    let r: u128 = p - t * unit;
    if 2 * r > unit || (2 * r == unit && t % 2 == 1) {
        (t + 1, s)
    } else {
        (t, s)
    }
}

/// Computes `q` times 2 to the power of `x`, rounded to a whole number that 64
/// bits hold.
fn to_whole(q: u128, x: i64) -> (r: u64)
    requires
        q <= MANTISSA_END,
    ensures
        r == saturated(whole(q as nat, x as int)),
{
    proof {
        vstd::arithmetic::power2::lemma2_to64();
    }
    if x >= 0 {
        if q == 0 {
            assert(0 * pow2(x as nat) == 0) by (nonlinear_arith);
            return 0;
        }
        let mut v: u128 = q;
        let mut i: i64 = 0;
        assert(q * pow2(0) == q);
        while i < x && v <= u64::MAX as u128
            invariant
                0 <= i <= x,
                v == q * pow2(i as nat),
                v <= 2 * (u64::MAX as u128),
            decreases x - i,
        {
            proof {
                vstd::arithmetic::power2::lemma_pow2_unfold((i + 1) as nat);
                assert(q * (2 * pow2(i as nat)) == 2 * (q * pow2(i as nat))) by (nonlinear_arith);
            }
            v = v * 2;
            i = i + 1;
        }
        if v > u64::MAX as u128 {
            proof {
                if i < x {
                    vstd::arithmetic::power2::lemma_pow2_strictly_increases(i as nat, x as nat);
                    assert(q * pow2(x as nat) >= q * pow2(i as nat)) by (nonlinear_arith)
                        requires
                            pow2(x as nat) >= pow2(i as nat),
                            q >= 0,
                    ;
                }
            }
            return u64::MAX;
        }
        v as u64
    } else {
        let halvings: i64 = -(x + 1);
        let mut t: u128 = q;
        let mut i: i64 = 0;
        assert(q as nat / pow2(0) == q);
        while i < halvings && t > 0
            invariant
                0 <= i <= halvings,
                t == q as nat / pow2(i as nat),
                t <= q,
            decreases halvings - i,
        {
            proof {
                vstd::arithmetic::power2::lemma_pow2_unfold((i + 1) as nat);
                vstd::arithmetic::power2::lemma_pow2_pos(i as nat);
                vstd::arithmetic::div_mod::lemma_div_denominator(
                    q as int,
                    pow2(i as nat) as int,
                    2,
                );
            }
            t = t / 2;
            i = i + 1;
        }
        proof {
            if i < halvings {
                let a = pow2(i as nat);
                let b = pow2(halvings as nat);
                vstd::arithmetic::power2::lemma_pow2_pos(i as nat);
                vstd::arithmetic::power2::lemma_pow2_strictly_increases(i as nat, halvings as nat);
                assert(q < a) by {
                    if q >= a {
                        vstd::arithmetic::div_mod::lemma_div_non_zero(q as int, a as int);
                    }
                }
                vstd::arithmetic::div_mod::lemma_basic_div(q as int, b as int);
            }
        }
        ((t + 1) / 2) as u64
    }
}

/// Computes a number times a factor, as floating point does, and rounds it.
pub fn scale(n: Number, factor: u64) -> (r: u64)
    ensures
        r == scaled(n, factor),
{
    match n {
        Number::Finite { mantissa, exponent, .. } => {
            assert(mantissa * factor <= u64::MAX * u64::MAX) by (nonlinear_arith)
                requires
                    0 <= mantissa <= u64::MAX,
                    0 <= factor <= u64::MAX,
            ;
            let p: u128 = mantissa as u128 * factor as u128;
            let (q, cut) = round_to_nearest(p);
            to_whole(q, exponent as i64 + cut as i64)
        },
        Number::Infinite { .. } => u64::MAX,
        _ => 0,
    }
}

/// What a quantity comes to, given its number and the factor of its unit.
pub open spec fn quantity_of(
    parts: Option<(Seq<char>, Seq<char>)>,
    number: Number,
    factor: Option<u64>,
) -> Result<u64, QuantityError> {
    if parts is None {
        Err(QuantityError::Empty)
    } else if number == Number::Invalid || below_zero(number) {
        Err(QuantityError::Invalid)
    } else {
        match factor {
            Some(f) => Ok(scaled(number, f)),
            None => Err(QuantityError::InvalidUnit),
        }
    }
}

/// What a size comes to, given its parts.
pub open spec fn size_of(parts: Option<(Seq<char>, Seq<char>)>, number: Number) -> Result<
    u64,
    QuantityError,
> {
    quantity_of(
        parts,
        number,
        match parts {
            Some((_, unit)) => size_factor(unit),
            None => None,
        },
    )
}

/// What an age comes to, given its parts.
pub open spec fn age_in_seconds(parts: Option<(Seq<char>, Seq<char>)>, number: Number) -> Result<
    u64,
    QuantityError,
> {
    quantity_of(
        parts,
        number,
        match parts {
            Some((_, unit)) => age_factor(unit),
            None => None,
        },
    )
}

/// Computes a quantity.
fn evaluate(number: Number, factor: Option<u64>) -> (r: Result<u64, QuantityError>)
    ensures
        r == quantity_of(Some((Seq::empty(), Seq::empty())), number, factor),
{
    let rejected: bool = match number {
        Number::Invalid => true,
        Number::Finite { negative, mantissa, .. } => negative && mantissa > 0,
        Number::Infinite { negative } => negative,
        Number::Nan => false,
    };
    if rejected {
        return Err(QuantityError::Invalid);
    }
    match factor {
        Some(f) => Ok(scale(number, f)),
        None => Err(QuantityError::InvalidUnit),
    }
}

/// The bytes of a size that was taken apart, given what its number came to.
pub fn read_size(parts: &Option<Parts>, number: Number) -> (r: Result<u64, QuantityError>)
    ensures
        r == size_of(parts_view(*parts), number),
{
    match parts {
        None => Err(QuantityError::Empty),
        Some(p) => evaluate(number, find_size_factor(p.unit.as_str())),
    }
}

/// The seconds of an age that was taken apart, given what its number came to.
pub fn read_age(parts: &Option<Parts>, number: Number) -> (r: Result<u64, QuantityError>)
    ensures
        r == age_in_seconds(parts_view(*parts), number),
{
    match parts {
        None => Err(QuantityError::Empty),
        Some(p) => evaluate(number, find_age_factor(p.unit.as_str())),
    }
}

/// Reads a size like `100MB`, given what its number comes to in floating
/// point; `size_parts` says which text that is.
pub fn parse_size(raw: &str, number: Number) -> (r: Result<u64, QuantityError>)
    ensures
        r == size_of(size_parts_of(raw@), number),
        all_ascii(raw@) ==> r == size_of(ascii_size_parts(raw@), number),
{
    read_size(&size_parts(raw), number)
}

/// Reads an age like `30d` as seconds, given what its number comes to in
/// floating point; `age_parts` says which text that is.
pub fn parse_age(raw: &str, number: Number) -> (r: Result<u64, QuantityError>)
    ensures
        r == age_in_seconds(age_parts_of(raw@), number),
        all_ascii(raw@) ==> r == age_in_seconds(ascii_age_parts(raw@), number),
{
    read_age(&age_parts(raw), number)
}

/// A number that 53 bits hold, shifted up by `k` bits, exceeds them by at most
/// `k` bits.
proof fn lemma_excess_of_shifted(m: nat, k: nat)
    requires
        m < MANTISSA_END,
    ensures
        excess(m * pow2(k)) <= k,
    decreases k,
{
    vstd::arithmetic::power2::lemma2_to64();
    if k == 0 {
        assert(m * pow2(0) == m);
    } else {
        let half = pow2((k - 1) as nat);
        vstd::arithmetic::power2::lemma_pow2_unfold(k);
        assert(m * pow2(k) / 2 == m * half) by (nonlinear_arith)
            requires
                pow2(k) == 2 * half,
        ;
        lemma_excess_of_shifted(m, (k - 1) as nat);
    }
}

/// Law: a whole number of units that 53 bits hold is computed exactly, in
/// whichever way its number is taken apart.
pub proof fn law_whole_numbers_exact(n: u64, factor: u64, k: nat, mantissa: u64, exponent: i32)
    requires
        n * factor < MANTISSA_END,
        mantissa == n * pow2(k),
        exponent == -k,
    ensures
        scaled(Number::Finite { negative: false, mantissa, exponent }, factor) == n * factor,
{
    vstd::arithmetic::power2::lemma2_to64();
    let m = (n * factor) as nat;
    let p = (mantissa * factor) as nat;
    assert(p == m * pow2(k)) by (nonlinear_arith)
        requires
            p == (n * pow2(k)) * factor,
            m == n * factor,
    ;
    lemma_excess_of_shifted(m, k);
    let e = excess(p);
    let rest = (k - e) as nat;
    let unit = pow2(e);
    let q = m * pow2(rest);
    vstd::arithmetic::power2::lemma_pow2_adds(rest, e);
    vstd::arithmetic::power2::lemma_pow2_pos(e);
    assert(p == q * unit) by (nonlinear_arith)
        requires
            p == m * pow2(k),
            pow2(k) == pow2(rest) * unit,
            q == m * pow2(rest),
    ;
    vstd::arithmetic::div_mod::lemma_div_multiples_vanish(q as int, unit as int);
    vstd::arithmetic::div_mod::lemma_mod_multiples_basic(q as int, unit as int);
    vstd::arithmetic::mul::lemma_mul_is_commutative(q as int, unit as int);
    assert(nearest(p) == q);
    if rest == 0 {
        assert(q == m) by (nonlinear_arith)
            requires
                q == m * pow2(rest),
                pow2(rest) == 1,
        ;
        assert(q * pow2(0) == q);
    } else {
        let half = pow2((rest - 1) as nat);
        vstd::arithmetic::power2::lemma_pow2_unfold(rest);
        vstd::arithmetic::power2::lemma_pow2_pos((rest - 1) as nat);
        assert(q == (2 * m) * half) by (nonlinear_arith)
            requires
                q == m * pow2(rest),
                pow2(rest) == 2 * half,
        ;
        vstd::arithmetic::div_mod::lemma_div_multiples_vanish((2 * m) as int, half as int);
        vstd::arithmetic::mul::lemma_mul_is_commutative((2 * m) as int, half as int);
    }
}

/// Law: a quantity is accepted exactly if there is something in it, its
/// number is one and not below zero, and its unit is known.
pub proof fn law_accepted(raw: Seq<char>, number: Number)
    ensures
        size_of(size_parts_of(raw), number) is Ok <==> {
            &&& size_parts_of(raw) matches Some(p) && size_factor(p.1) is Some
            &&& number != Number::Invalid
            &&& !below_zero(number)
        },
        age_in_seconds(age_parts_of(raw), number) is Ok <==> {
            &&& age_parts_of(raw) matches Some(p) && age_factor(p.1) is Some
            &&& number != Number::Invalid
            &&& !below_zero(number)
        },
{
}

/// What the `Debug` form of a `str` is: the text in quotes, with escapes.
pub uninterp spec fn quoted_text(s: Seq<char>) -> Seq<char>;

/// Whether a text holds letters, digits and blanks of ASCII only.
pub open spec fn simple(s: Seq<char>) -> bool {
    forall|i: int|
        0 <= i < s.len() ==> (ascii_letter(#[trigger] s[i]) || '0' <= s[i] <= '9' || s[i] == ' ')
}

/// `format!("{:?}")` on a `str`: the text in double quotes, with escapes for
/// what needs them. Letters, digits and blanks of ASCII need none.
#[verifier::external_body]
fn debug_form(s: &str) -> (r: String)
    ensures
        r@ == quoted_text(s@),
        simple(s@) ==> r@ == "\""@ + s@ + "\""@,
{
    format!("{:?}", s)
}

/// What is said of a size that is rejected.
pub open spec fn size_error_of(e: QuantityError, raw: Seq<char>) -> Seq<char> {
    match e {
        QuantityError::Empty => "empty size"@,
        QuantityError::Invalid => "invalid size: "@ + raw,
        QuantityError::InvalidUnit => "invalid size unit in "@ + quoted_text(raw)
            + ": use B, KB, MB, GB, or TB"@,
    }
}

/// Says why a size is rejected.
pub fn size_error(e: QuantityError, raw: &str) -> (r: String)
    ensures
        r@ == size_error_of(e, raw@),
{
    let mut out: Vec<char> = Vec::new();
    match e {
        QuantityError::Empty => {
            push_str(&mut out, "empty size");
        },
        QuantityError::Invalid => {
            push_str(&mut out, "invalid size: ");
            push_str(&mut out, raw);
        },
        QuantityError::InvalidUnit => {
            push_str(&mut out, "invalid size unit in ");
            push_str(&mut out, debug_form(raw).as_str());
            push_str(&mut out, ": use B, KB, MB, GB, or TB");
        },
    }
    assert(out@ =~= size_error_of(e, raw@));
    string_of(out.as_slice())
}

/// What is said of an age that is rejected.
pub open spec fn age_error_of(e: QuantityError, raw: Seq<char>) -> Seq<char> {
    match e {
        QuantityError::Empty => "empty age"@,
        QuantityError::Invalid => "invalid age: "@ + raw,
        QuantityError::InvalidUnit => "invalid age unit in "@ + quoted_text(raw)
            + ": use s, m, h, d, w, mo, or y"@,
    }
}

/// Says why an age is rejected.
pub fn age_error(e: QuantityError, raw: &str) -> (r: String)
    ensures
        r@ == age_error_of(e, raw@),
{
    let mut out: Vec<char> = Vec::new();
    match e {
        QuantityError::Empty => {
            push_str(&mut out, "empty age");
        },
        QuantityError::Invalid => {
            push_str(&mut out, "invalid age: ");
            push_str(&mut out, raw);
        },
        QuantityError::InvalidUnit => {
            push_str(&mut out, "invalid age unit in ");
            push_str(&mut out, debug_form(raw).as_str());
            push_str(&mut out, ": use s, m, h, d, w, mo, or y");
        },
    }
    assert(out@ =~= age_error_of(e, raw@));
    string_of(out.as_slice())
}

/// The letters of the units of age.
proof fn lemma_age_words()
    ensures
        ""@.len() == 0,
        "d"@.len() == 1 && "d"@[0] == 'd',
        "day"@.len() == 3 && "day"@[0] == 'd' && "day"@[1] == 'a' && "day"@[2] == 'y',
        "days"@.len() == 4 && "days"@[0] == 'd' && "days"@[1] == 'a' && "days"@[2] == 'y' && "days"@[3] == 's',
        "s"@.len() == 1 && "s"@[0] == 's',
        "sec"@.len() == 3 && "sec"@[0] == 's' && "sec"@[1] == 'e' && "sec"@[2] == 'c',
        "secs"@.len() == 4 && "secs"@[0] == 's' && "secs"@[1] == 'e' && "secs"@[2] == 'c' && "secs"@[3] == 's',
        "second"@.len() == 6 && "second"@[0] == 's' && "second"@[1] == 'e' && "second"@[2] == 'c' && "second"@[3] == 'o' && "second"@[4] == 'n' && "second"@[5] == 'd',
        "seconds"@.len() == 7 && "seconds"@[0] == 's' && "seconds"@[1] == 'e' && "seconds"@[2] == 'c' && "seconds"@[3] == 'o' && "seconds"@[4] == 'n' && "seconds"@[5] == 'd' && "seconds"@[6] == 's',
        "m"@.len() == 1 && "m"@[0] == 'm',
        "min"@.len() == 3 && "min"@[0] == 'm' && "min"@[1] == 'i' && "min"@[2] == 'n',
        "mins"@.len() == 4 && "mins"@[0] == 'm' && "mins"@[1] == 'i' && "mins"@[2] == 'n' && "mins"@[3] == 's',
        "minute"@.len() == 6 && "minute"@[0] == 'm' && "minute"@[1] == 'i' && "minute"@[2] == 'n' && "minute"@[3] == 'u' && "minute"@[4] == 't' && "minute"@[5] == 'e',
        "minutes"@.len() == 7 && "minutes"@[0] == 'm' && "minutes"@[1] == 'i' && "minutes"@[2] == 'n' && "minutes"@[3] == 'u' && "minutes"@[4] == 't' && "minutes"@[5] == 'e' && "minutes"@[6] == 's',
        "h"@.len() == 1 && "h"@[0] == 'h',
        "hour"@.len() == 4 && "hour"@[0] == 'h' && "hour"@[1] == 'o' && "hour"@[2] == 'u' && "hour"@[3] == 'r',
        "hours"@.len() == 5 && "hours"@[0] == 'h' && "hours"@[1] == 'o' && "hours"@[2] == 'u' && "hours"@[3] == 'r' && "hours"@[4] == 's',
        "w"@.len() == 1 && "w"@[0] == 'w',
        "week"@.len() == 4 && "week"@[0] == 'w' && "week"@[1] == 'e' && "week"@[2] == 'e' && "week"@[3] == 'k',
        "weeks"@.len() == 5 && "weeks"@[0] == 'w' && "weeks"@[1] == 'e' && "weeks"@[2] == 'e' && "weeks"@[3] == 'k' && "weeks"@[4] == 's',
        "mo"@.len() == 2 && "mo"@[0] == 'm' && "mo"@[1] == 'o',
        "mon"@.len() == 3 && "mon"@[0] == 'm' && "mon"@[1] == 'o' && "mon"@[2] == 'n',
        "mons"@.len() == 4 && "mons"@[0] == 'm' && "mons"@[1] == 'o' && "mons"@[2] == 'n' && "mons"@[3] == 's',
        "month"@.len() == 5 && "month"@[0] == 'm' && "month"@[1] == 'o' && "month"@[2] == 'n' && "month"@[3] == 't' && "month"@[4] == 'h',
        "months"@.len() == 6 && "months"@[0] == 'm' && "months"@[1] == 'o' && "months"@[2] == 'n' && "months"@[3] == 't' && "months"@[4] == 'h' && "months"@[5] == 's',
        "y"@.len() == 1 && "y"@[0] == 'y',
        "yr"@.len() == 2 && "yr"@[0] == 'y' && "yr"@[1] == 'r',
        "yrs"@.len() == 3 && "yrs"@[0] == 'y' && "yrs"@[1] == 'r' && "yrs"@[2] == 's',
        "year"@.len() == 4 && "year"@[0] == 'y' && "year"@[1] == 'e' && "year"@[2] == 'a' && "year"@[3] == 'r',
        "years"@.len() == 5 && "years"@[0] == 'y' && "years"@[1] == 'e' && "years"@[2] == 'a' && "years"@[3] == 'r' && "years"@[4] == 's',
{
    reveal_strlit("");
    reveal_strlit("d");
    reveal_strlit("day");
    reveal_strlit("days");
    reveal_strlit("s");
    reveal_strlit("sec");
    reveal_strlit("secs");
    reveal_strlit("second");
    reveal_strlit("seconds");
    reveal_strlit("m");
    reveal_strlit("min");
    reveal_strlit("mins");
    reveal_strlit("minute");
    reveal_strlit("minutes");
    reveal_strlit("h");
    reveal_strlit("hour");
    reveal_strlit("hours");
    reveal_strlit("w");
    reveal_strlit("week");
    reveal_strlit("weeks");
    reveal_strlit("mo");
    reveal_strlit("mon");
    reveal_strlit("mons");
    reveal_strlit("month");
    reveal_strlit("months");
    reveal_strlit("y");
    reveal_strlit("yr");
    reveal_strlit("yrs");
    reveal_strlit("year");
    reveal_strlit("years");
}

/// The letters of the units of size.
proof fn lemma_size_words()
    ensures
        ""@.len() == 0,
        "B"@.len() == 1 && "B"@[0] == 'B',
        "K"@.len() == 1 && "K"@[0] == 'K',
        "KB"@.len() == 2 && "KB"@[0] == 'K' && "KB"@[1] == 'B',
        "KIB"@.len() == 3 && "KIB"@[0] == 'K' && "KIB"@[1] == 'I' && "KIB"@[2] == 'B',
        "M"@.len() == 1 && "M"@[0] == 'M',
        "MB"@.len() == 2 && "MB"@[0] == 'M' && "MB"@[1] == 'B',
        "MIB"@.len() == 3 && "MIB"@[0] == 'M' && "MIB"@[1] == 'I' && "MIB"@[2] == 'B',
        "G"@.len() == 1 && "G"@[0] == 'G',
        "GB"@.len() == 2 && "GB"@[0] == 'G' && "GB"@[1] == 'B',
        "GIB"@.len() == 3 && "GIB"@[0] == 'G' && "GIB"@[1] == 'I' && "GIB"@[2] == 'B',
        "T"@.len() == 1 && "T"@[0] == 'T',
        "TB"@.len() == 2 && "TB"@[0] == 'T' && "TB"@[1] == 'B',
        "TIB"@.len() == 3 && "TIB"@[0] == 'T' && "TIB"@[1] == 'I' && "TIB"@[2] == 'B',
{
    reveal_strlit("");
    reveal_strlit("B");
    reveal_strlit("K");
    reveal_strlit("KB");
    reveal_strlit("KIB");
    reveal_strlit("M");
    reveal_strlit("MB");
    reveal_strlit("MIB");
    reveal_strlit("G");
    reveal_strlit("GB");
    reveal_strlit("GIB");
    reveal_strlit("T");
    reveal_strlit("TB");
    reveal_strlit("TIB");
}

/// Law: the units of age, one by one. Without a unit, and in all spellings of it, a
/// day has 86400 seconds; a second, a minute, an hour and a week have 1, 60, 3600 and
/// 604800, a month has 30 days and a year 365.
pub proof fn law_age_units()
    ensures
        age_factor(""@) == Some(86_400u64),
        age_factor("d"@) == Some(86_400u64),
        age_factor("day"@) == Some(86_400u64),
        age_factor("days"@) == Some(86_400u64),
        age_factor("s"@) == Some(1u64),
        age_factor("sec"@) == Some(1u64),
        age_factor("secs"@) == Some(1u64),
        age_factor("second"@) == Some(1u64),
        age_factor("seconds"@) == Some(1u64),
        age_factor("m"@) == Some(60u64),
        age_factor("min"@) == Some(60u64),
        age_factor("mins"@) == Some(60u64),
        age_factor("minute"@) == Some(60u64),
        age_factor("minutes"@) == Some(60u64),
        age_factor("h"@) == Some(3_600u64),
        age_factor("hour"@) == Some(3_600u64),
        age_factor("hours"@) == Some(3_600u64),
        age_factor("w"@) == Some(604_800u64),
        age_factor("week"@) == Some(604_800u64),
        age_factor("weeks"@) == Some(604_800u64),
        age_factor("mo"@) == Some(2_592_000u64),
        age_factor("mon"@) == Some(2_592_000u64),
        age_factor("mons"@) == Some(2_592_000u64),
        age_factor("month"@) == Some(2_592_000u64),
        age_factor("months"@) == Some(2_592_000u64),
        age_factor("y"@) == Some(31_536_000u64),
        age_factor("yr"@) == Some(31_536_000u64),
        age_factor("yrs"@) == Some(31_536_000u64),
        age_factor("year"@) == Some(31_536_000u64),
        age_factor("years"@) == Some(31_536_000u64),
{
    lemma_age_words();
}

/// Law: the units of size, one by one. Each is 1024 of the one before it, in all
/// spellings of it; without a unit it is bytes.
pub proof fn law_size_units()
    ensures
        size_factor(""@) matches Some(f) && f == 1,
        size_factor("B"@) matches Some(f) && f == 1,
        size_factor("K"@) matches Some(f) && f == 1024,
        size_factor("KB"@) matches Some(f) && f == 1024,
        size_factor("KIB"@) matches Some(f) && f == 1024,
        size_factor("M"@) matches Some(f) && f == 1024 * 1024,
        size_factor("MB"@) matches Some(f) && f == 1024 * 1024,
        size_factor("MIB"@) matches Some(f) && f == 1024 * 1024,
        size_factor("G"@) matches Some(f) && f == 1024 * 1024 * 1024,
        size_factor("GB"@) matches Some(f) && f == 1024 * 1024 * 1024,
        size_factor("GIB"@) matches Some(f) && f == 1024 * 1024 * 1024,
        size_factor("T"@) matches Some(f) && f == 1024 * 1024 * 1024 * 1024,
        size_factor("TB"@) matches Some(f) && f == 1024 * 1024 * 1024 * 1024,
        size_factor("TIB"@) matches Some(f) && f == 1024 * 1024 * 1024 * 1024,
{
    lemma_size_words();
}

/// Law: no other text is a unit.
pub proof fn law_no_other_units(unit: Seq<char>)
    ensures
        age_factor(unit) is Some ==> {
            ||| unit == ""@
            ||| unit == "d"@
            ||| unit == "day"@
            ||| unit == "days"@
            ||| unit == "s"@
            ||| unit == "sec"@
            ||| unit == "secs"@
            ||| unit == "second"@
            ||| unit == "seconds"@
            ||| unit == "m"@
            ||| unit == "min"@
            ||| unit == "mins"@
            ||| unit == "minute"@
            ||| unit == "minutes"@
            ||| unit == "h"@
            ||| unit == "hour"@
            ||| unit == "hours"@
            ||| unit == "w"@
            ||| unit == "week"@
            ||| unit == "weeks"@
            ||| unit == "mo"@
            ||| unit == "mon"@
            ||| unit == "mons"@
            ||| unit == "month"@
            ||| unit == "months"@
            ||| unit == "y"@
            ||| unit == "yr"@
            ||| unit == "yrs"@
            ||| unit == "year"@
            ||| unit == "years"@
        },
        size_factor(unit) is Some ==> {
            ||| unit == ""@
            ||| unit == "B"@
            ||| unit == "K"@
            ||| unit == "KB"@
            ||| unit == "KIB"@
            ||| unit == "M"@
            ||| unit == "MB"@
            ||| unit == "MIB"@
            ||| unit == "G"@
            ||| unit == "GB"@
            ||| unit == "GIB"@
            ||| unit == "T"@
            ||| unit == "TB"@
            ||| unit == "TIB"@
        },
{
}

/// Law: a whole number of units of age is that number times the seconds of the unit,
/// whichever spelling of the unit is used.
pub proof fn law_whole_ages(text: Seq<char>, n: u64, k: nat, mantissa: u64, exponent: i32)
    requires
        n * 31_536_000 < 0x20_0000_0000_0000,
        mantissa == n * pow2(k),
        exponent == -k,
    ensures
        ({
            let x = Number::Finite { negative: false, mantissa, exponent };
            &&& age_in_seconds(Some((text, ""@)), x) == Ok::<u64, QuantityError>((n * 86_400) as u64)
            &&& age_in_seconds(Some((text, "d"@)), x) == Ok::<u64, QuantityError>((n * 86_400) as u64)
            &&& age_in_seconds(Some((text, "day"@)), x) == Ok::<u64, QuantityError>((n * 86_400) as u64)
            &&& age_in_seconds(Some((text, "days"@)), x) == Ok::<u64, QuantityError>((n * 86_400) as u64)
            &&& age_in_seconds(Some((text, "s"@)), x) == Ok::<u64, QuantityError>((n * 1) as u64)
            &&& age_in_seconds(Some((text, "sec"@)), x) == Ok::<u64, QuantityError>((n * 1) as u64)
            &&& age_in_seconds(Some((text, "secs"@)), x) == Ok::<u64, QuantityError>((n * 1) as u64)
            &&& age_in_seconds(Some((text, "second"@)), x) == Ok::<u64, QuantityError>((n * 1) as u64)
            &&& age_in_seconds(Some((text, "seconds"@)), x) == Ok::<u64, QuantityError>((n * 1) as u64)
            &&& age_in_seconds(Some((text, "m"@)), x) == Ok::<u64, QuantityError>((n * 60) as u64)
            &&& age_in_seconds(Some((text, "min"@)), x) == Ok::<u64, QuantityError>((n * 60) as u64)
            &&& age_in_seconds(Some((text, "mins"@)), x) == Ok::<u64, QuantityError>((n * 60) as u64)
            &&& age_in_seconds(Some((text, "minute"@)), x) == Ok::<u64, QuantityError>((n * 60) as u64)
            &&& age_in_seconds(Some((text, "minutes"@)), x) == Ok::<u64, QuantityError>((n * 60) as u64)
            &&& age_in_seconds(Some((text, "h"@)), x) == Ok::<u64, QuantityError>((n * 3_600) as u64)
            &&& age_in_seconds(Some((text, "hour"@)), x) == Ok::<u64, QuantityError>((n * 3_600) as u64)
            &&& age_in_seconds(Some((text, "hours"@)), x) == Ok::<u64, QuantityError>((n * 3_600) as u64)
            &&& age_in_seconds(Some((text, "w"@)), x) == Ok::<u64, QuantityError>((n * 604_800) as u64)
            &&& age_in_seconds(Some((text, "week"@)), x) == Ok::<u64, QuantityError>((n * 604_800) as u64)
            &&& age_in_seconds(Some((text, "weeks"@)), x) == Ok::<u64, QuantityError>((n * 604_800) as u64)
            &&& age_in_seconds(Some((text, "mo"@)), x) == Ok::<u64, QuantityError>((n * 2_592_000) as u64)
            &&& age_in_seconds(Some((text, "mon"@)), x) == Ok::<u64, QuantityError>((n * 2_592_000) as u64)
            &&& age_in_seconds(Some((text, "mons"@)), x) == Ok::<u64, QuantityError>((n * 2_592_000) as u64)
            &&& age_in_seconds(Some((text, "month"@)), x) == Ok::<u64, QuantityError>((n * 2_592_000) as u64)
            &&& age_in_seconds(Some((text, "months"@)), x) == Ok::<u64, QuantityError>((n * 2_592_000) as u64)
            &&& age_in_seconds(Some((text, "y"@)), x) == Ok::<u64, QuantityError>((n * 31_536_000) as u64)
            &&& age_in_seconds(Some((text, "yr"@)), x) == Ok::<u64, QuantityError>((n * 31_536_000) as u64)
            &&& age_in_seconds(Some((text, "yrs"@)), x) == Ok::<u64, QuantityError>((n * 31_536_000) as u64)
            &&& age_in_seconds(Some((text, "year"@)), x) == Ok::<u64, QuantityError>((n * 31_536_000) as u64)
            &&& age_in_seconds(Some((text, "years"@)), x) == Ok::<u64, QuantityError>((n * 31_536_000) as u64)
        }),
{
    law_age_units();
    law_whole_numbers_exact(n, 86_400, k, mantissa, exponent);
    law_whole_numbers_exact(n, 1, k, mantissa, exponent);
    law_whole_numbers_exact(n, 60, k, mantissa, exponent);
    law_whole_numbers_exact(n, 3_600, k, mantissa, exponent);
    law_whole_numbers_exact(n, 604_800, k, mantissa, exponent);
    law_whole_numbers_exact(n, 2_592_000, k, mantissa, exponent);
    law_whole_numbers_exact(n, 31_536_000, k, mantissa, exponent);
}

/// Law: a whole number of units of size is that number times the bytes of the unit,
/// whichever spelling of the unit is used.
pub proof fn law_whole_sizes(text: Seq<char>, n: u64, k: nat, mantissa: u64, exponent: i32)
    requires
        n * 0x100_0000_0000 < 0x20_0000_0000_0000,
        mantissa == n * pow2(k),
        exponent == -k,
    ensures
        ({
            let x = Number::Finite { negative: false, mantissa, exponent };
            &&& size_of(Some((text, ""@)), x) == Ok::<u64, QuantityError>((n * 1) as u64)
            &&& size_of(Some((text, "B"@)), x) == Ok::<u64, QuantityError>((n * 1) as u64)
            &&& size_of(Some((text, "K"@)), x) == Ok::<u64, QuantityError>((n * 0x400) as u64)
            &&& size_of(Some((text, "KB"@)), x) == Ok::<u64, QuantityError>((n * 0x400) as u64)
            &&& size_of(Some((text, "KIB"@)), x) == Ok::<u64, QuantityError>((n * 0x400) as u64)
            &&& size_of(Some((text, "M"@)), x) == Ok::<u64, QuantityError>((n * 0x10_0000) as u64)
            &&& size_of(Some((text, "MB"@)), x) == Ok::<u64, QuantityError>((n * 0x10_0000) as u64)
            &&& size_of(Some((text, "MIB"@)), x) == Ok::<u64, QuantityError>((n * 0x10_0000) as u64)
            &&& size_of(Some((text, "G"@)), x) == Ok::<u64, QuantityError>((n * 0x4000_0000) as u64)
            &&& size_of(Some((text, "GB"@)), x) == Ok::<u64, QuantityError>((n * 0x4000_0000) as u64)
            &&& size_of(Some((text, "GIB"@)), x) == Ok::<u64, QuantityError>((n * 0x4000_0000) as u64)
            &&& size_of(Some((text, "T"@)), x) == Ok::<u64, QuantityError>((n * 0x100_0000_0000) as u64)
            &&& size_of(Some((text, "TB"@)), x) == Ok::<u64, QuantityError>((n * 0x100_0000_0000) as u64)
            &&& size_of(Some((text, "TIB"@)), x) == Ok::<u64, QuantityError>((n * 0x100_0000_0000) as u64)
        }),
{
    law_size_units();
    law_whole_numbers_exact(n, 1, k, mantissa, exponent);
    law_whole_numbers_exact(n, 0x400, k, mantissa, exponent);
    law_whole_numbers_exact(n, 0x10_0000, k, mantissa, exponent);
    law_whole_numbers_exact(n, 0x4000_0000, k, mantissa, exponent);
    law_whole_numbers_exact(n, 0x100_0000_0000, k, mantissa, exponent);
}

/// Whether a text is the text of a number, as far as digits and a point go.
pub open spec fn number_text(s: Seq<char>) -> bool {
    s.len() > 0 && forall|i: int|
        0 <= i < s.len() ==> ('0' <= #[trigger] s[i] <= '9' || s[i] == '.')
}

/// Whether a text consists of letters of ASCII.
pub open spec fn all_letters(s: Seq<char>) -> bool {
    forall|i: int| 0 <= i < s.len() ==> ascii_letter(#[trigger] s[i])
}

/// Whether a text consists of blanks.
pub open spec fn all_blank(s: Seq<char>) -> bool {
    forall|i: int| 0 <= i < s.len() ==> #[trigger] s[i] == ' '
}

/// Blanks are removed from each part of a text.
proof fn lemma_without_blanks_concat(a: Seq<char>, b: Seq<char>)
    ensures
        without_blanks(a + b) == without_blanks(a) + without_blanks(b),
    decreases b.len(),
{
    if b.len() == 0 {
        assert(a + b =~= a);
        assert(without_blanks(a) + without_blanks(b) =~= without_blanks(a));
    } else {
        lemma_without_blanks_concat(a, b.drop_last());
        assert((a + b).drop_last() =~= a + b.drop_last());
        assert((a + b).last() == b.last());
        assert(without_blanks(a + b) =~= without_blanks(a) + without_blanks(b));
    }
}

/// A text without blanks stays, and nothing stays of blanks.
proof fn lemma_without_blanks_of(s: Seq<char>)
    ensures
        !s.contains(' ') ==> without_blanks(s) == s,
        all_blank(s) ==> without_blanks(s) == Seq::<char>::empty(),
    decreases s.len(),
{
    if s.len() > 0 {
        let d = s.drop_last();
        lemma_without_blanks_of(d);
        if !s.contains(' ') {
            assert(s.contains(s.last()));
            assert forall|c: char| d.contains(c) implies s.contains(c) by {
                let i = choose|i: int| 0 <= i < d.len() && d[i] == c;
                assert(s[i] == c);
            }
            assert(d.push(s.last()) =~= s);
        }
        if all_blank(s) {
            assert forall|i: int| 0 <= i < d.len() implies #[trigger] d[i] == ' ' by {
                assert(d[i] == s[i]);
            }
            assert(s[s.len() - 1] == ' ');
        }
    } else {
        assert(s =~= Seq::<char>::empty());
    }
}

/// A number ends where its unit starts.
proof fn lemma_number_ends(number: Seq<char>, unit: Seq<char>)
    requires
        forall|i: int| 0 <= i < number.len() ==> !ascii_letter(#[trigger] number[i]),
        all_letters(unit),
    ensures
        ascii_number_len(number + unit) == number.len(),
    decreases number.len(),
{
    let s = number + unit;
    if number.len() == 0 {
        assert(s =~= unit);
        if unit.len() > 0 {
            assert(ascii_letter(unit[0]));
        }
    } else {
        let rest = number.skip(1);
        assert forall|i: int| 0 <= i < rest.len() implies !ascii_letter(#[trigger] rest[i]) by {
            assert(rest[i] == number[i + 1]);
        }
        lemma_number_ends(rest, unit);
        assert(s[0] == number[0]);
        assert(!ascii_letter(number[0]));
        assert(s.skip(1) =~= rest + unit);
    }
}

/// The parts of a quantity after its case was changed: the number stays, the
/// blanks are gone, and the unit is what became of it.
proof fn lemma_parts(number: Seq<char>, gap: Seq<char>, unit: Seq<char>)
    requires
        number_text(number),
        all_blank(gap),
        all_letters(unit),
    ensures
        ascii_parts_of(without_blanks(number + gap + unit)) == Some((number, unit)),
{
    lemma_without_blanks_concat(number + gap, unit);
    lemma_without_blanks_concat(number, gap);
    lemma_without_blanks_of(number);
    lemma_without_blanks_of(gap);
    lemma_without_blanks_of(unit);
    assert(!number.contains(' '));
    assert(!unit.contains(' ')) by {
        if unit.contains(' ') {
            let i = choose|i: int| 0 <= i < unit.len() && unit[i] == ' ';
            assert(ascii_letter(unit[i]));
        }
    }
    let s = number + unit;
    assert(number + Seq::<char>::empty() + unit =~= s);
    lemma_number_ends(number, unit);
    assert(s.take(number.len() as int) =~= number);
    assert(s.skip(number.len() as int) =~= unit);
}

/// Law: white space around a quantity, blanks within it and the case of its unit do
/// not matter: it consists of the text of its number and of its unit, in small
/// letters for an age and in capitals for a size.
pub proof fn law_quantity_parts(
    before: Seq<char>,
    number: Seq<char>,
    gap: Seq<char>,
    unit: Seq<char>,
    after: Seq<char>,
)
    requires
        all_white(before),
        number_text(number),
        all_blank(gap),
        all_letters(unit),
        gap.len() > 0 ==> unit.len() > 0,
        all_white(after),
    ensures
        ascii_age_parts(before + (number + gap + unit) + after) == Some(
            (number, unit.map_values(|c: char| crate::text::ascii_lower(c))),
        ),
        ascii_size_parts(before + (number + gap + unit) + after) == Some(
            (number, unit.map_values(|c: char| ascii_upper(c))),
        ),
{
    let s = number + gap + unit;
    let lower = |c: char| crate::text::ascii_lower(c);
    let upper = |c: char| ascii_upper(c);
    assert(s[0] == number[0]);
    if unit.len() > 0 {
        assert(ascii_letter(unit[unit.len() - 1]));
        assert(s.last() == unit.last());
    } else {
        assert(s.last() == number[number.len() - 1]);
    }
    crate::text::law_trimmed(before, s, after);
    assert(s.map_values(lower) =~= number + gap + unit.map_values(lower)) by {
        assert(number.map_values(lower) =~= number);
        assert(gap.map_values(lower) =~= gap);
    }
    assert(s.map_values(upper) =~= number + gap + unit.map_values(upper)) by {
        assert(number.map_values(upper) =~= number);
        assert(gap.map_values(upper) =~= gap);
    }
    assert forall|i: int| 0 <= i < unit.len() implies ascii_letter(
        #[trigger] unit.map_values(lower)[i],
    ) && ascii_letter(unit.map_values(upper)[i]) by {
        assert(ascii_letter(unit[i]));
    }
    assert forall|i: int| 0 <= i < unit.len() implies ascii_letter(
        #[trigger] unit.map_values(upper)[i],
    ) by {
        assert(ascii_letter(unit[i]));
    }
    lemma_parts(number, gap, unit.map_values(lower));
    lemma_parts(number, gap, unit.map_values(upper));
}

/// Law: what is white space alone is no quantity.
pub proof fn law_blank_is_no_quantity(s: Seq<char>, number: Number)
    requires
        all_white(s),
    ensures
        age_in_seconds(ascii_age_parts(s), number) == Err::<u64, QuantityError>(
            QuantityError::Empty,
        ),
        size_of(ascii_size_parts(s), number) == Err::<u64, QuantityError>(QuantityError::Empty),
{
    let none = Seq::<char>::empty();
    crate::text::law_trimmed(s, none, none);
    assert(s + none + none =~= s);
    assert(without_blanks(none) =~= none);
    assert(none.map_values(|c: char| crate::text::ascii_lower(c)) =~= none);
    assert(none.map_values(|c: char| ascii_upper(c)) =~= none);
}

/// Law: a quantity whose number is none, or below zero, is invalid; with any other
/// number it is its unit that decides.
pub proof fn law_rejected(text: Seq<char>, unit: Seq<char>, mantissa: u64, exponent: i32)
    ensures
        ({
            let parts = Some((text, unit));
            let minus = Number::Finite { negative: true, mantissa, exponent };
            let plus = Number::Finite { negative: false, mantissa, exponent };
            &&& age_in_seconds(parts, Number::Invalid) == Err::<u64, QuantityError>(
                QuantityError::Invalid,
            )
            &&& size_of(parts, Number::Invalid) == Err::<u64, QuantityError>(
                QuantityError::Invalid,
            )
            &&& mantissa > 0 ==> age_in_seconds(parts, minus) == Err::<u64, QuantityError>(
                QuantityError::Invalid,
            )
            &&& mantissa > 0 ==> size_of(parts, minus) == Err::<u64, QuantityError>(
                QuantityError::Invalid,
            )
            &&& age_in_seconds(parts, Number::Infinite { negative: true }) == Err::<
                u64,
                QuantityError,
            >(QuantityError::Invalid)
            &&& age_factor(unit) is None ==> age_in_seconds(parts, plus) == Err::<
                u64,
                QuantityError,
            >(QuantityError::InvalidUnit)
            &&& size_factor(unit) is None ==> size_of(parts, plus) == Err::<u64, QuantityError>(
                QuantityError::InvalidUnit,
            )
            &&& age_factor(unit) is Some ==> age_in_seconds(parts, plus) is Ok
            &&& size_factor(unit) is Some ==> size_of(parts, plus) is Ok
            &&& age_factor(unit) is Some ==> age_in_seconds(
                parts,
                Number::Infinite { negative: false },
            ) == Ok::<u64, QuantityError>(u64::MAX)
            &&& age_factor(unit) is Some ==> age_in_seconds(parts, Number::Nan) == Ok::<
                u64,
                QuantityError,
            >(0)
        }),
{
}

/// Law: a product that 53 bits hold is rounded to the nearest whole number, halves
/// up.
pub proof fn law_rounds_to_nearest(mantissa: u64, factor: u64, k: nat, exponent: i32)
    requires
        mantissa * factor < 0x20_0000_0000_0000,
        k > 0,
        exponent == -k,
    ensures
        ({
            let r = scaled(Number::Finite { negative: false, mantissa, exponent }, factor) as int;
            let p = mantissa * factor;
            let half = pow2((k - 1) as nat) as int;
            (2 * r - 1) * half <= p < (2 * r + 1) * half
        }),
{
    vstd::arithmetic::power2::lemma2_to64();
    let p = (mantissa * factor) as nat;
    let half = pow2((k - 1) as nat);
    vstd::arithmetic::power2::lemma_pow2_pos((k - 1) as nat);
    assert(excess(p) == 0);
    assert(p / 1 == p && p % 1 == 0);
    assert(nearest(p) == p);
    let q = p / half;
    vstd::arithmetic::div_mod::lemma_fundamental_div_mod(p as int, half as int);
    vstd::arithmetic::div_mod::lemma_mod_bound(p as int, half as int);
    let r = (q + 1) / 2;
    assert(q <= p) by {
        vstd::arithmetic::div_mod::lemma_div_is_ordered_by_denominator(p as int, 1, half as int);
    }
    assert(scaled(Number::Finite { negative: false, mantissa, exponent }, factor) == r);
    assert((2 * r - 1) * half <= half * q) by (nonlinear_arith)
        requires
            2 * r - 1 <= q,
            half > 0,
    ;
    assert(half * q + half <= (2 * r + 1) * half) by (nonlinear_arith)
        requires
            q <= 2 * r,
            half > 0,
    ;
}

/// Law: a product that 53 bits hold is exact as long as it is scaled up, and is cut
/// off where 64 bits end.
pub proof fn law_scales_up(mantissa: u64, factor: u64, exponent: i32)
    requires
        mantissa * factor < 0x20_0000_0000_0000,
        exponent >= 0,
    ensures
        ({
            let r = scaled(Number::Finite { negative: false, mantissa, exponent }, factor);
            let exact = mantissa * factor * pow2(exponent as nat);
            &&& exact <= u64::MAX ==> r == exact
            &&& exact > u64::MAX ==> r == u64::MAX
        }),
{
    vstd::arithmetic::power2::lemma2_to64();
    let p = (mantissa * factor) as nat;
    assert(p / 1 == p && p % 1 == 0);
    assert(nearest(p) == p);
    assert(p * pow2(exponent as nat) >= 0) by (nonlinear_arith);
}

/// A number is cut to exactly 53 bits.
proof fn lemma_excess_fits(p: nat)
    requires
        p >= MANTISSA_END,
    ensures
        0x10_0000_0000_0000 <= p / pow2(excess(p)) < 0x20_0000_0000_0000,
        excess(p) > 0,
    decreases p,
{
    vstd::arithmetic::power2::lemma2_to64();
    let e = excess(p / 2);
    vstd::arithmetic::power2::lemma_pow2_unfold((e + 1) as nat);
    vstd::arithmetic::power2::lemma_pow2_pos(e);
    vstd::arithmetic::div_mod::lemma_div_denominator(p as int, 2, pow2(e) as int);
    if p / 2 >= MANTISSA_END {
        lemma_excess_fits(p / 2);
    } else {
        assert(p / 2 / 1 == p / 2);
    }
}

/// Law: a number that 53 bits do not hold is rounded to the nearest of those that
/// they hold, shifted by as few bits as it takes; between two it is rounded to the even
/// one.
pub proof fn law_nearest(p: nat)
    ensures
        ({
            let unit = pow2(excess(p)) as int;
            let off = p - nearest(p) * unit;
            &&& -unit <= 2 * off <= unit
            &&& unit > 1 && (2 * off == unit || 2 * off == -unit) ==> nearest(p) % 2 == 0
            &&& p < 0x20_0000_0000_0000 ==> nearest(p) == p && excess(p) == 0
            &&& p >= 0x20_0000_0000_0000 ==> 0x10_0000_0000_0000 <= nearest(p)
                <= 0x20_0000_0000_0000
        }),
{
    vstd::arithmetic::power2::lemma2_to64();
    let unit = pow2(excess(p));
    vstd::arithmetic::power2::lemma_pow2_pos(excess(p));
    vstd::arithmetic::div_mod::lemma_fundamental_div_mod(p as int, unit as int);
    vstd::arithmetic::div_mod::lemma_mod_bound(p as int, unit as int);
    let q = p / unit;
    let r = p % unit;
    assert(q * unit == unit * q) by (nonlinear_arith);
    assert((q + 1) * unit == unit * q + unit) by (nonlinear_arith);
    if p >= MANTISSA_END {
        lemma_excess_fits(p);
    } else {
        assert(p / 1 == p && p % 1 == 0);
    }
}

/// Law: an answer in ASCII means yes if it is `y` or `yes`, in whatever case and
/// with whatever white space around it, and no other answer does.
pub proof fn law_yes(before: Seq<char>, word: Seq<char>, after: Seq<char>)
    requires
        all_white(before),
        all_white(after),
        word.len() > 0 ==> !white_space(word[0]) && !white_space(word.last()),
    ensures
        ascii_means_yes(before + word + after) <==> {
            ||| word.len() == 1 && (word[0] == 'y' || word[0] == 'Y')
            ||| word.len() == 3 && (word[0] == 'y' || word[0] == 'Y') && (word[1] == 'e' || word[1]
                == 'E') && (word[2] == 's' || word[2] == 'S')
        },
{
    reveal_strlit("y");
    reveal_strlit("yes");
    crate::text::law_trimmed(before, word, after);
    let lower = |c: char| crate::text::ascii_lower(c);
    let w = word.map_values(lower);
    assert(w.len() == word.len());
    assert("y"@.len() == 1 && "y"@[0] == 'y');
    assert("yes"@.len() == 3 && "yes"@[0] == 'y' && "yes"@[1] == 'e' && "yes"@[2] == 's');
    assert forall|i: int| 0 <= i < w.len() implies #[trigger] w[i] == crate::text::ascii_lower(
        word[i],
    ) by {}
    if word.len() == 1 && (word[0] == 'y' || word[0] == 'Y') {
        assert(w =~= "y"@);
    }
    if word.len() == 3 && (word[0] == 'y' || word[0] == 'Y') && (word[1] == 'e' || word[1] == 'E')
        && (word[2] == 's' || word[2] == 'S') {
        assert(w =~= "yes"@);
    }
    if w == "y"@ {
        assert(w[0] == crate::text::ascii_lower(word[0]));
    }
    if w == "yes"@ {
        assert(w[0] == crate::text::ascii_lower(word[0]));
        assert(w[1] == crate::text::ascii_lower(word[1]));
        assert(w[2] == crate::text::ascii_lower(word[2]));
    }
}

/// Law: a text that is rejected is quoted in what is said of it, with the units
/// that are accepted where it is the unit that is wrong.
pub proof fn law_rejections_say_why(raw: Seq<char>)
    ensures
        age_error_of(QuantityError::Empty, raw) == "empty age"@,
        size_error_of(QuantityError::Empty, raw) == "empty size"@,
        age_error_of(QuantityError::Invalid, raw) == "invalid age: "@ + raw,
        size_error_of(QuantityError::Invalid, raw) == "invalid size: "@ + raw,
        age_error_of(QuantityError::InvalidUnit, raw) == "invalid age unit in "@ + quoted_text(raw)
            + ": use s, m, h, d, w, mo, or y"@,
        size_error_of(QuantityError::InvalidUnit, raw) == "invalid size unit in "@ + quoted_text(
            raw,
        ) + ": use B, KB, MB, GB, or TB"@,
{
}

/// Law: raising changes small letters of ASCII, each to its capital, and nothing else.
pub proof fn law_ascii_upper(c: char)
    ensures
        'a' <= c <= 'z' ==> 'A' <= ascii_upper(c) <= 'Z' && ascii_upper(c) as int - 'A' as int
            == c as int - 'a' as int,
        !('a' <= c <= 'z') ==> ascii_upper(c) == c,
{
}

} // verus!
