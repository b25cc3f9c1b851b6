//! Cargo's build cache, a directory outside of all projects.
use vstd::prelude::*;
use vstd::utf8::encode_utf8;

use crate::file_path::{path_view, FilePath};
use crate::path::joined;
use crate::scan::cargo_config::{env_dir, usable};
use crate::scan::measure::{counted, disk_usage, fold_records, newest_of, EntryRec};
use crate::scan::{entry_view, EntryView, OutputKind, TargetEntry};
use crate::text::{text_view, trimmed};

verus! {

/// Where the build cache is: `build-cache` in `$CARGO_HOME`, or in `.cargo` of
/// `$HOME`. Nowhere if neither variable is set to anything.
pub open spec fn cache_path(cargo_home: Option<Seq<char>>, home: Option<Seq<char>>) -> Option<
    Seq<u8>,
> {
    if usable(cargo_home) {
        Some(joined(encode_utf8(cargo_home->0), encode_utf8("build-cache"@)))
    } else if usable(home) {
        Some(
            joined(
                joined(encode_utf8(home->0), encode_utf8(".cargo"@)),
                encode_utf8("build-cache"@),
            ),
        )
    } else {
        None
    }
}

/// Finds the build cache from the values of `CARGO_HOME` and `HOME`.
pub fn build_cache_path(cargo_home: &Option<String>, home: &Option<String>) -> (r: Option<FilePath>)
    ensures
        path_view(r) == cache_path(text_view(*cargo_home), text_view(*home)),
{
    match env_dir(cargo_home) {
        Some(dir) => Some(dir.join("build-cache")),
        None => match env_dir(home) {
            Some(dir) => Some(dir.join(".cargo").join("build-cache")),
            None => None,
        },
    }
}

/// The entry of the build cache at `path`, from the records of a walk through
/// it. Nothing if it is not a directory, or a link to one.
pub open spec fn cache_entry(
    path: Seq<u8>,
    is_dir: bool,
    is_symlink: bool,
    recs: Seq<EntryRec>,
) -> Option<EntryView> {
    if !is_dir || is_symlink {
        None
    } else {
        Some(
            EntryView {
                project_path: path,
                target_dir: path,
                kind: OutputKind::Target,
                size: Some(disk_usage(recs)),
                last_modified: Some(newest_of(counted(recs)) as i128),
            },
        )
    }
}

/// Measures the build cache at `path`, if there is one.
pub fn build_cache_entry_at(
    path: &FilePath,
    is_dir: bool,
    is_symlink: bool,
    recs: &Vec<EntryRec>,
) -> (r: Option<TargetEntry>)
    ensures
        entry_view(r) == cache_entry(path@, is_dir, is_symlink, recs@),
{
    if !is_dir || is_symlink {
        return None;
    }
    let (size, newest) = fold_records(recs);
    Some(
        TargetEntry {
            project_path: path.clone(),
            target_dir: path.clone(),
            kind: OutputKind::Target,
            size: Some(size),
            last_modified: Some(newest),
        },
    )
}

/// Measures the build cache at the place that `build_cache_path` found.
pub fn build_cache_entry(
    path: &Option<FilePath>,
    is_dir: bool,
    is_symlink: bool,
    recs: &Vec<EntryRec>,
) -> (r: Option<TargetEntry>)
    ensures
        entry_view(r) == match path_view(*path) {
            Some(p) => cache_entry(p, is_dir, is_symlink, recs@),
            None => None,
        },
{
    match path {
        Some(p) => build_cache_entry_at(p, is_dir, is_symlink, recs),
        None => None,
    }
}

/// Law: the build cache is what is called `build-cache` in Cargo's home, which is
/// `$CARGO_HOME`, or `.cargo` in `$HOME` where that is blank or not set. Without
/// either there is none.
pub proof fn law_cache_path(a: Seq<char>, b: Seq<char>, other: Option<Seq<char>>)
    requires
        trimmed(a).len() > 0,
        trimmed(b).len() == 0,
    ensures
        cache_path(Some(a), other) == Some(
            joined(encode_utf8(a), seq![98u8, 117, 105, 108, 100, 45, 99, 97, 99, 104, 101]),
        ),
        cache_path(None, Some(a)) == Some(
            joined(
                joined(encode_utf8(a), seq![46u8, 99, 97, 114, 103, 111]),
                seq![98u8, 117, 105, 108, 100, 45, 99, 97, 99, 104, 101],
            ),
        ),
        cache_path(Some(b), other) == cache_path(None, other),
        cache_path(None, Some(b)) is None,
        cache_path(None, None) is None,
{
    reveal_strlit("build-cache");
    reveal_strlit(".cargo");
    crate::file_path::law_ascii_bytes("build-cache"@);
    crate::file_path::law_ascii_bytes(".cargo"@);
    assert(encode_utf8("build-cache"@) =~= seq![
        98u8,
        117,
        105,
        108,
        100,
        45,
        99,
        97,
        99,
        104,
        101,
    ]);
    assert(encode_utf8(".cargo"@) =~= seq![46u8, 99, 97, 114, 103, 111]);
}

/// Law: only a directory that is no link is shown as the build cache, and it is
/// measured like any other directory.
pub proof fn law_cache_entry(path: Seq<u8>, is_dir: bool, is_symlink: bool, recs: Seq<EntryRec>)
    ensures
        cache_entry(path, is_dir, is_symlink, recs) is Some <==> is_dir && !is_symlink,
        cache_entry(path, is_dir, is_symlink, recs) matches Some(e) ==> {
            let m = crate::scan::measure::measured(path, Some(recs));
            &&& e.target_dir == path
            &&& e.project_path == path
            &&& e.kind == OutputKind::Target
            &&& e.size == Some(m.size)
            &&& e.last_modified == m.last_modified
        },
{
}

} // verus!
