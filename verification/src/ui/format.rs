//! Sizes, ages and paths as people read them.
use vstd::prelude::*;

use crate::file_path::{lossy_text, path_view, FilePath};
use crate::path::stripped;
use crate::scan::{EntryView, TargetEntry, Timestamp};
use crate::text::{decimal, push_str, string_of};

verus! {

pub const KIB: u64 = 0x400;

pub const MIB: u64 = 0x10_0000;

pub const GIB: u64 = 0x4000_0000;

pub const TIB: u64 = 0x100_0000_0000;

/// A unit in which sizes are written.
#[derive(Clone, Copy, Debug, PartialEq, Eq, Structural)]
pub enum SizeUnit {
    B,
    KiB,
    MiB,
    GiB,
    TiB,
}

/// What `bytefmt::format_to` writes for a number of bytes in a unit.
pub uninterp spec fn size_text(bytes: u64, unit: SizeUnit) -> Seq<char>;

/// `bytefmt::format_to`: writes a number of bytes in a unit, with at most two
/// decimals. Bytes themselves, fewer than 1024 of them, are written as a whole
/// number; how other numbers are rounded is left to the crate.
#[verifier::external_body]
fn format_to(bytes: u64, unit: SizeUnit) -> (s: String)
    ensures
        s@ == size_text(bytes, unit),
        unit == SizeUnit::B && bytes < KIB ==> s@ == decimal(bytes as nat) + " B"@,
{
    let to = match unit {
        SizeUnit::B => bytefmt::Unit::B,
        SizeUnit::KiB => bytefmt::Unit::KIB,
        SizeUnit::MiB => bytefmt::Unit::MIB,
        SizeUnit::GiB => bytefmt::Unit::GIB,
        SizeUnit::TiB => bytefmt::Unit::TIB,
    };
    bytefmt::format_to(bytes, to)
}

/// The unit for a number of bytes: the biggest that is not bigger than it.
pub open spec fn unit_for(bytes: u64) -> SizeUnit {
    if bytes < KIB {
        SizeUnit::B
    } else if bytes < MIB {
        SizeUnit::KiB
    } else if bytes < GIB {
        SizeUnit::MiB
    } else if bytes < TIB {
        SizeUnit::GiB
    } else {
        SizeUnit::TiB
    }
}

/// Picks the unit for a number of bytes.
pub fn size_unit(bytes: u64) -> (r: SizeUnit)
    ensures
        r == unit_for(bytes),
{
    if bytes < KIB {
        SizeUnit::B
    } else if bytes < MIB {
        SizeUnit::KiB
    } else if bytes < GIB {
        SizeUnit::MiB
    } else if bytes < TIB {
        SizeUnit::GiB
    } else {
        SizeUnit::TiB
    }
}

/// A number of bytes as people read it.
pub open spec fn formatted_size(bytes: u64) -> Seq<char> {
    size_text(bytes, unit_for(bytes))
}

/// Writes a number of bytes in binary units.
pub fn format_size(bytes: u64) -> (s: String)
    ensures
        s@ == formatted_size(bytes),
        bytes < KIB ==> s@ == decimal(bytes as nat) + " B"@,
{
    format_to(bytes, size_unit(bytes))
}

/// A size as people read it; a dash while it is not measured yet.
pub open spec fn formatted_size_opt(size: Option<u64>) -> Seq<char> {
    match size {
        Some(n) => formatted_size(n),
        None => "-"@,
    }
}

/// Writes a size, or a dash while it is not measured yet.
pub fn format_size_opt(size: Option<u64>) -> (s: String)
    ensures
        s@ == formatted_size_opt(size),
        size matches Some(n) && n < KIB ==> s@ == decimal(size->0 as nat) + " B"@,
{
    match size {
        Some(n) => format_size(n),
        None => "-".to_owned(),
    }
}

/// The color of a size.
#[derive(Clone, Copy, Debug, PartialEq, Eq, Structural)]
pub enum Heat {
    /// Small, or not measured yet.
    Dim,
    Plain,
    /// Large.
    Amber,
    /// Huge.
    Rose,
}

/// How much a size stands out: from 50 MiB, from 1 GiB and from 5 GiB on.
pub open spec fn heat_of(size: Option<u64>) -> Heat {
    match size {
        None => Heat::Dim,
        Some(n) => if n < 50 * MIB {
            Heat::Dim
        } else if n < GIB {
            Heat::Plain
        } else if n < 5 * GIB {
            Heat::Amber
        } else {
            Heat::Rose
        },
    }
}

/// Picks the color of a size.
pub fn size_style(size: Option<u64>) -> (r: Heat)
    ensures
        r == heat_of(size),
{
    match size {
        None => Heat::Dim,
        Some(n) => if n < 50 * MIB {
            Heat::Dim
        } else if n < GIB {
            Heat::Plain
        } else if n < 5 * GIB {
            Heat::Amber
        } else {
            Heat::Rose
        },
    }
}

/// How long before `now` a moment lies, in nanoseconds; nothing if it lies
/// after it.
pub open spec fn age_of(moment: Timestamp, now: Timestamp) -> nat {
    if moment < now {
        (now - moment) as nat
    } else {
        0
    }
}

/// Computes how long before `now` a moment lies.
pub fn age(moment: Timestamp, now: Timestamp) -> (r: u128)
    ensures
        r == age_of(moment, now),
{
    if moment >= now {
        0
    } else if moment >= 0 {
        (now - moment) as u128
    } else if now < 0 {
        (now - moment) as u128
    } else {
        let after: u128 = now as u128;
        let before: u128 = (-(moment + 1)) as u128;
        after + before + 1
    }
}

/// The nanoseconds in a second.
pub const SECOND: u128 = 1_000_000_000;

/// A count of units, in words: `1 day ago`, `2 days ago`.
pub open spec fn units_ago(count: u64, unit: Seq<char>) -> Seq<char> {
    let ending = if count == 1 {
        " ago"@
    } else {
        "s ago"@
    };
    decimal(count as nat) + " "@ + unit + ending
}

/// The seconds that count as one month.
pub const MONTH: u64 = 2_628_003;

/// The seconds that count as one year, twelve months.
pub const YEAR: u64 = 31_536_036;

/// How long ago something was, as a count of the largest unit that fits.
pub open spec fn age_words(secs: u64) -> Seq<char> {
    if secs < 60 {
        units_ago(secs, "second"@)
    } else if secs < 3_600 {
        units_ago(secs / 60, "minute"@)
    } else if secs < 86_400 {
        units_ago(secs / 3_600, "hour"@)
    } else if secs < 604_800 {
        units_ago(secs / 86_400, "day"@)
    } else if secs < MONTH {
        units_ago(secs / 604_800, "week"@)
    } else if secs < YEAR {
        units_ago(secs / MONTH, "month"@)
    } else {
        units_ago(secs / YEAR, "year"@)
    }
}

/// `timeago::Formatter::convert` on a `timeago::Formatter::new()`: writes a
/// duration of at least a second as a count of its largest unit, in English.
#[verifier::external_body]
fn convert_age(secs: u64, nanos: u32) -> (s: String)
    requires
        secs > 0,
        nanos < 1_000_000_000,
    ensures
        s@ == age_words(secs),
{
    timeago::Formatter::new().convert(std::time::Duration::new(secs, nanos))
}

/// The whole seconds of an age, as far as 64 bits hold them.
pub open spec fn whole_seconds(age: nat) -> u64 {
    if age / (SECOND as nat) > u64::MAX {
        u64::MAX
    } else {
        (age / (SECOND as nat)) as u64
    }
}

/// An age as people read it.
pub open spec fn formatted_age(age: nat) -> Seq<char> {
    let secs = whole_seconds(age);
    if secs < 5 {
        "now"@
    } else if 86_400 <= secs < 172_800 {
        "yesterday"@
    } else {
        age_words(secs)
    }
}

/// Writes an age, given in nanoseconds: the last five seconds are now, and
/// the second day is yesterday.
pub fn format_age(age: u128) -> (s: String)
    ensures
        s@ == formatted_age(age as nat),
{
    let whole: u128 = age / SECOND;
    let secs: u64 = if whole > u64::MAX as u128 {
        u64::MAX
    } else {
        whole as u64
    };
    if secs < 5 {
        "now".to_owned()
    } else if 86_400 <= secs && secs < 172_800 {
        "yesterday".to_owned()
    } else {
        convert_age(secs, (age % SECOND) as u32)
    }
}

/// Writes how long before `now` a moment lies.
pub fn format_modified_at(last_modified: Timestamp, now: Timestamp) -> (s: String)
    ensures
        s@ == formatted_age(age_of(last_modified, now)),
{
    format_age(age(last_modified, now))
}

/// A modification time as people read it; without one the directory is gone.
pub open spec fn formatted_modified(last_modified: Option<Timestamp>, now: Timestamp) -> Seq<
    char,
> {
    match last_modified {
        Some(t) => formatted_age(age_of(t, now)),
        None => "deleted"@,
    }
}

/// Writes a modification time, or that the directory is gone.
pub fn format_modified_opt(last_modified: Option<Timestamp>, now: Timestamp) -> (s: String)
    ensures
        s@ == formatted_modified(last_modified, now),
{
    match last_modified {
        Some(t) => format_modified_at(t, now),
        None => "deleted".to_owned(),
    }
}

/// The modification time of an entry as people read it; a dash while it is
/// not measured yet.
pub open spec fn entry_modified(e: EntryView, now: Timestamp) -> Seq<char> {
    if e.size is None {
        "-"@
    } else {
        formatted_modified(e.last_modified, now)
    }
}

/// Writes the modification time of an entry.
pub fn format_modified_entry(entry: &TargetEntry, now: Timestamp) -> (s: String)
    ensures
        s@ == entry_modified(entry@, now),
{
    if entry.size.is_none() {
        return "-".to_owned();
    }
    format_modified_opt(entry.last_modified, now)
}

/// A path as people read it: below the home directory it starts with `~`.
pub open spec fn shown_path(path: Seq<u8>, home: Option<Seq<u8>>) -> Seq<char> {
    match home {
        Some(h) if h.len() > 0 && stripped(path, h) is Some => {
            let rest = stripped(path, h)->0;
            if rest.len() == 0 {
                "~"@
            } else {
                "~/"@ + lossy_text(rest)
            }
        },
        _ => lossy_text(path),
    }
}

/// Writes a path, given its canonical form and that of the home directory.
pub fn display_path(path: &FilePath, home: &Option<FilePath>) -> (s: String)
    ensures
        s@ == shown_path(path@, path_view(*home)),
{
    if let Some(h) = home {
        if !h.is_empty() {
            if let Some(rest) = path.strip_prefix(h) {
                if rest.is_empty() {
                    return "~".to_owned();
                }
                let mut out: Vec<char> = Vec::new();
                push_str(&mut out, "~/");
                push_str(&mut out, rest.to_text().as_str());
                assert(out@ =~= "~/"@ + lossy_text(rest@));
                return string_of(out.as_slice());
            }
        }
    }
    path.to_text()
}

/// Law: a moment after `now` reads as now, and so does any of the last five
/// seconds.
pub proof fn law_recent_reads_as_now(moment: Timestamp, now: Timestamp)
    requires
        now - moment < 5 * SECOND,
    ensures
        formatted_age(age_of(moment, now)) == "now"@,
{
    let a = age_of(moment, now);
    assert(a / (SECOND as nat) < 5) by (nonlinear_arith)
        requires
            a < 5 * SECOND,
            SECOND == 1_000_000_000,
    ;
}

/// Law: a bigger size never stands out less.
pub proof fn law_heat_rises(a: u64, b: u64)
    requires
        a <= b,
    ensures
        heat_of(Some(b)) == Heat::Dim ==> heat_of(Some(a)) == Heat::Dim,
        heat_of(Some(a)) == Heat::Rose ==> heat_of(Some(b)) == Heat::Rose,
        heat_of(Some(a)) == Heat::Amber ==> heat_of(Some(b)) == Heat::Amber || heat_of(Some(b))
            == Heat::Rose,
{
}

/// Law: a size is written in the biggest unit that is not bigger than it, each unit
/// being 1024 of the one before.
pub proof fn law_units(bytes: u64)
    ensures
        bytes < 1024 ==> formatted_size(bytes) == size_text(bytes, SizeUnit::B),
        1024 <= bytes < 1024 * 1024 ==> formatted_size(bytes) == size_text(bytes, SizeUnit::KiB),
        1024 * 1024 <= bytes < 1024 * 1024 * 1024 ==> formatted_size(bytes) == size_text(
            bytes,
            SizeUnit::MiB,
        ),
        1024 * 1024 * 1024 <= bytes < 1024 * 1024 * 1024 * 1024 ==> formatted_size(bytes)
            == size_text(bytes, SizeUnit::GiB),
        1024 * 1024 * 1024 * 1024 <= bytes ==> formatted_size(bytes) == size_text(
            bytes,
            SizeUnit::TiB,
        ),
        formatted_size_opt(Some(bytes)) == formatted_size(bytes),
        formatted_size_opt(None) == "-"@,
{
}

/// Law: a size stands out from 50 MiB on, more from 1 GiB on and most from 5 GiB on;
/// what is not measured does not.
pub proof fn law_heat(n: u64)
    ensures
        heat_of(None) == Heat::Dim,
        n < 50 * 1024 * 1024 <==> heat_of(Some(n)) == Heat::Dim,
        50 * 1024 * 1024 <= n < 1024 * 1024 * 1024 <==> heat_of(Some(n)) == Heat::Plain,
        1024 * 1024 * 1024 <= n < 5 * 1024 * 1024 * 1024 <==> heat_of(Some(n)) == Heat::Amber,
        5 * 1024 * 1024 * 1024 <= n <==> heat_of(Some(n)) == Heat::Rose,
{
}

/// Law: an age is how much earlier a moment was, and nothing for one that is still to
/// come.
pub proof fn law_age(moment: Timestamp, now: Timestamp)
    ensures
        moment <= now ==> age_of(moment, now) == now - moment,
        moment >= now ==> age_of(moment, now) == 0,
{
}

/// Law: an age of `n` whole seconds reads as now up to four seconds, as yesterday on
/// the second day, and otherwise as a count of seconds, minutes, hours, days, weeks,
/// months or years.
pub proof fn law_age_reads(n: u64, rest: nat)
    requires
        rest < 1_000_000_000,
    ensures
        ({
            let s = formatted_age(n as nat * 1_000_000_000 + rest);
            &&& n < 5 ==> s == "now"@
            &&& 86_400 <= n < 2 * 86_400 ==> s == "yesterday"@
            &&& 5 <= n < 60 ==> s == decimal(n as nat) + " "@ + "second"@ + "s ago"@
            &&& 120 <= n < 3_600 ==> s == decimal((n / 60) as nat) + " "@ + "minute"@ + "s ago"@
            &&& 60 <= n < 120 ==> s == decimal(1) + " "@ + "minute"@ + " ago"@
            &&& 3_600 <= n < 7_200 ==> s == decimal(1) + " "@ + "hour"@ + " ago"@
            &&& 7_200 <= n < 86_400 ==> s == decimal((n / 3_600) as nat) + " "@ + "hour"@
                + "s ago"@
            &&& 2 * 86_400 <= n < 7 * 86_400 ==> s == decimal((n / 86_400) as nat) + " "@ + "day"@
                + "s ago"@
            &&& 7 * 86_400 <= n < 14 * 86_400 ==> s == decimal(1) + " "@ + "week"@ + " ago"@
            &&& 14 * 86_400 <= n < 2_628_003 ==> s == decimal((n / 604_800) as nat) + " "@
                + "week"@ + "s ago"@
            &&& 2_628_003 <= n < 2 * 2_628_003 ==> s == decimal(1) + " "@ + "month"@ + " ago"@
            &&& 2 * 2_628_003 <= n < 31_536_036 ==> s == decimal((n / 2_628_003) as nat) + " "@
                + "month"@ + "s ago"@
            &&& 31_536_036 <= n < 2 * 31_536_036 ==> s == decimal(1) + " "@ + "year"@ + " ago"@
            &&& 2 * 31_536_036 <= n ==> s == decimal((n / 31_536_036) as nat) + " "@ + "year"@
                + "s ago"@
        }),
{
    let a = n as nat * 1_000_000_000 + rest;
    assert(a / 1_000_000_000 == n) by (nonlinear_arith)
        requires
            a == n as nat * 1_000_000_000 + rest,
            rest < 1_000_000_000,
    ;
}

/// Law: an entry shows a dash until it is measured, that it is deleted once it has no
/// time, and its age otherwise.
pub proof fn law_entry_modified(e: EntryView, now: Timestamp)
    ensures
        e.size is None ==> entry_modified(e, now) == "-"@,
        e.size is Some && e.last_modified is None ==> entry_modified(e, now) == "deleted"@,
        e.size is Some ==> (e.last_modified matches Some(t) ==> entry_modified(e, now)
            == formatted_age(age_of(t, now))),
        formatted_modified(None, now) == "deleted"@,
        e.last_modified matches Some(t) ==> formatted_modified(e.last_modified, now)
            == formatted_age(age_of(t, now)),
{
}

/// Law: a path below the home directory is written from `~` on, the home directory
/// itself as `~`, and any other path as it is.
pub proof fn law_shown_path(home: Seq<u8>, name: Seq<u8>, path: Seq<u8>)
    requires
        home.len() > 0,
        crate::path::is_name(name),
    ensures
        shown_path(path, None) == lossy_text(path),
        shown_path(home, Some(home)) == "~"@,
        shown_path(crate::path::joined(home, name), Some(home)) == "~/"@ + lossy_text(name),
        !crate::path::components(home).is_prefix_of(crate::path::components(path)) ==> shown_path(
            path,
            Some(home),
        ) == lossy_text(path),
{
    crate::path::law_strip_name(home, name);
}

} // verus!
