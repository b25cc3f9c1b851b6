//! The orders in which the table can be shown.
use vstd::prelude::*;

use crate::file_path::{paths, FilePath};
use crate::path::{component_order, components, lemma_component_order, path_lt, same_path};
use crate::scan::{entries_view, EntryView, TargetEntry};
use crate::seqs::{
    lemma_inserted_at, lemma_lex_irreflexive, lemma_lex_total, lemma_lex_transitive, sorted,
    weak_order,
};

verus! {

/// What the table is sorted by.
#[derive(Clone, Copy, Debug, PartialEq, Eq, Structural)]
pub enum SortKey {
    /// The biggest directories first, but those that are not measured yet
    /// before them.
    Size,
    /// The most recently modified directories first.
    Modified,
    /// By path.
    Name,
}

impl Default for SortKey {
    fn default() -> (r: SortKey)
        ensures
            r == SortKey::Size,
    {
        SortKey::Size
    }
}

/// The key after `k` in the cycle of keys.
pub open spec fn next_key(k: SortKey) -> SortKey {
    match k {
        SortKey::Size => SortKey::Modified,
        SortKey::Modified => SortKey::Name,
        SortKey::Name => SortKey::Size,
    }
}

/// The word for a key.
pub open spec fn key_label(k: SortKey) -> Seq<char> {
    match k {
        SortKey::Size => "size"@,
        SortKey::Modified => "modified"@,
        SortKey::Name => "name"@,
    }
}

impl SortKey {
    /// The next key in the cycle.
    pub fn next(self) -> (r: SortKey)
        ensures
            r == next_key(self),
    {
        match self {
            SortKey::Size => SortKey::Modified,
            SortKey::Modified => SortKey::Name,
            SortKey::Name => SortKey::Size,
        }
    }

    /// The word that the footer shows.
    pub fn label(self) -> (r: &'static str)
        ensures
            r@ == key_label(self),
    {
        match self {
            SortKey::Size => "size",
            SortKey::Modified => "modified",
            SortKey::Name => "name",
        }
    }
}

/// Law: the cycle of keys passes through all three and comes back.
pub proof fn law_keys_cycle(k: SortKey)
    ensures
        next_key(next_key(next_key(k))) == k,
        next_key(k) != k,
        next_key(next_key(k)) != k,
{
}

/// Whether `a` comes before `b` by project path, then by output directory.
pub open spec fn paths_before(a: EntryView, b: EntryView) -> bool {
    path_lt(a.project_path, b.project_path) || (same_path(a.project_path, b.project_path)
        && path_lt(a.target_dir, b.target_dir))
}

/// Whether `a` comes before `b` in the table. By size, directories that are
/// not measured yet come first. By modification time, those without one come
/// last.
pub open spec fn before(key: SortKey, a: EntryView, b: EntryView) -> bool {
    match key {
        SortKey::Size => match (a.size, b.size) {
            (Some(x), Some(y)) => y < x,
            (Some(_), None) => false,
            (None, Some(_)) => true,
            (None, None) => paths_before(a, b),
        },
        SortKey::Modified => match (a.last_modified, b.last_modified) {
            (Some(x), Some(y)) => y < x || (x == y && paths_before(a, b)),
            (Some(_), None) => true,
            (None, Some(_)) => false,
            (None, None) => paths_before(a, b),
        },
        SortKey::Name => paths_before(a, b),
    }
}

/// The order of the table as a relation.
pub open spec fn table_order(key: SortKey) -> spec_fn(EntryView, EntryView) -> bool {
    |a: EntryView, b: EntryView| before(key, a, b)
}

/// The entries in table order.
pub open spec fn sorted_entries(key: SortKey, s: Seq<EntryView>) -> Seq<EntryView> {
    sorted(table_order(key), s)
}

/// Paths are strictly ordered, and only paths with the same components are
/// not ordered either way.
pub proof fn lemma_path_order(a: Seq<u8>, b: Seq<u8>, c: Seq<u8>)
    ensures
        !path_lt(a, a),
        path_lt(a, b) && path_lt(b, c) ==> path_lt(a, c),
        path_lt(a, b) || same_path(a, b) || path_lt(b, a),
        same_path(a, b) ==> !path_lt(a, b),
{
    lemma_component_order();
    let lt = component_order();
    lemma_lex_irreflexive(lt, components(a));
    lemma_lex_total(lt, components(a), components(b));
    if path_lt(a, b) && path_lt(b, c) {
        lemma_lex_transitive(lt, components(a), components(b), components(c));
    }
}

/// The order by paths is a strict weak order.
proof fn lemma_paths_before(a: EntryView, b: EntryView, c: EntryView)
    ensures
        !paths_before(a, a),
        paths_before(a, b) && paths_before(b, c) ==> paths_before(a, c),
        paths_before(a, c) ==> paths_before(a, b) || paths_before(b, c),
{
    lemma_path_order(a.project_path, b.project_path, c.project_path);
    lemma_path_order(b.project_path, c.project_path, a.project_path);
    lemma_path_order(b.project_path, a.project_path, c.project_path);
    lemma_path_order(a.project_path, c.project_path, b.project_path);
    lemma_path_order(c.project_path, b.project_path, a.project_path);
    lemma_path_order(a.target_dir, b.target_dir, c.target_dir);
    lemma_path_order(b.target_dir, c.target_dir, a.target_dir);
    lemma_path_order(b.target_dir, a.target_dir, c.target_dir);
    lemma_path_order(a.target_dir, c.target_dir, b.target_dir);
    lemma_path_order(c.target_dir, b.target_dir, a.target_dir);
}

/// Law: every key orders the table as a strict weak order.
pub proof fn law_table_order(key: SortKey)
    ensures
        weak_order(table_order(key)),
{
    let lt = table_order(key);
    assert forall|a: EntryView| !#[trigger] lt(a, a) by {
        lemma_paths_before(a, a, a);
    }
    assert forall|a: EntryView, b: EntryView, c: EntryView| #[trigger] lt(a, b) && #[trigger] lt(
        b,
        c,
    ) implies lt(a, c) by {
        lemma_paths_before(a, b, c);
    }
    assert forall|a: EntryView, b: EntryView, c: EntryView|
        #![trigger lt(a, c), lt(a, b)]
        lt(a, c) implies lt(a, b) || lt(b, c) by {
        lemma_paths_before(a, b, c);
    }
}

/// Tests whether `a` comes before `b` by project path, then by output
/// directory.
fn is_paths_before(a: &TargetEntry, b: &TargetEntry) -> (r: bool)
    ensures
        r == paths_before(a@, b@),
{
    a.project_path.before(&b.project_path) || (a.project_path.same(&b.project_path)
        && a.target_dir.before(&b.target_dir))
}

/// Tests whether `a` comes before `b` in the table.
pub fn is_before(key: SortKey, a: &TargetEntry, b: &TargetEntry) -> (r: bool)
    ensures
        r == before(key, a@, b@),
{
    match key {
        SortKey::Size => match (a.size, b.size) {
            (Some(x), Some(y)) => y < x,
            (Some(_), None) => false,
            (None, Some(_)) => true,
            (None, None) => is_paths_before(a, b),
        },
        SortKey::Modified => match (a.last_modified, b.last_modified) {
            (Some(x), Some(y)) => y < x || (x == y && is_paths_before(a, b)),
            (Some(_), None) => true,
            (None, Some(_)) => false,
            (None, None) => is_paths_before(a, b),
        },
        SortKey::Name => is_paths_before(a, b),
    }
}

/// Sorts the entries of the table.
pub fn sort_entries(key: SortKey, entries: &mut Vec<TargetEntry>)
    ensures
        entries_view(final(entries)@) == sorted_entries(key, entries_view(old(entries)@)),
{
    let ghost start = entries_view(entries@);
    let ghost lt = table_order(key);
    let n: usize = entries.len();
    assert(start.take(0) =~= Seq::<EntryView>::empty());
    for i in 0..n
        invariant
            n == start.len(),
            n == entries@.len(),
            lt == table_order(key),
            entries_view(entries@).take(i as int) == sorted(lt, start.take(i as int)),
            entries_view(entries@).skip(i as int) == start.skip(i as int),
    {
        let ghost now = entries_view(entries@);
        let ghost done = now.take(i as int);
        let ghost x = now[i as int];
        assert(x == start[i as int]) by {
            assert(now.skip(i as int)[0] == start.skip(i as int)[0]);
        }
        let mut j: usize = i;
        while j > 0 && is_before(key, &entries[i], &entries[j - 1])
            invariant
                j <= i < n,
                n == entries@.len(),
                lt == table_order(key),
                now == entries_view(entries@),
                done == now.take(i as int),
                x == now[i as int],
                forall|k: int| j <= k < i ==> lt(x, #[trigger] done[k]),
            decreases j,
        {
            assert(done[j - 1] == entries@[j - 1]@);
            assert(x == entries@[i as int]@);
            j -= 1;
        }
        proof {
            if j > 0 {
                assert(done[j - 1] == entries@[j - 1]@);
                assert(x == entries@[i as int]@);
                assert(!lt(x, done[j - 1]));
            }
            lemma_inserted_at(lt, done, x, j as int);
            assert(start.take(i + 1).drop_last() =~= start.take(i as int));
            assert(start.take(i + 1).last() == x);
        }
        if j < i {
            let e = entries.remove(i);
            entries.insert(j, e);
        }
        proof {
            let after = entries_view(entries@);
            assert(after.take(i + 1) =~= done.take(j as int).push(x) + done.skip(j as int));
            assert(after.skip(i + 1) =~= start.skip(i + 1)) by {
                assert forall|k: int| 0 <= k < n - (i + 1) implies #[trigger] after.skip(
                    i + 1,
                )[k] == start.skip(i + 1)[k] by {
                    assert(after[i + 1 + k] == now[i + 1 + k]);
                    assert(now.skip(i as int)[k + 1] == start.skip(i as int)[k + 1]);
                }
            }
        }
    }
    assert(start.take(n as int) =~= start);
    assert(entries_view(entries@).take(n as int) =~= entries_view(entries@));
}

/// The order of paths as a relation.
pub open spec fn path_order() -> spec_fn(Seq<u8>, Seq<u8>) -> bool {
    |a: Seq<u8>, b: Seq<u8>| path_lt(a, b)
}

/// Law: paths are ordered by a strict weak order.
pub proof fn law_path_order()
    ensures
        weak_order(path_order()),
{
    let lt = path_order();
    assert forall|a: Seq<u8>| !#[trigger] lt(a, a) by {
        lemma_path_order(a, a, a);
    }
    assert forall|a: Seq<u8>, b: Seq<u8>, c: Seq<u8>| #[trigger] lt(a, b) && #[trigger] lt(
        b,
        c,
    ) implies lt(a, c) by {
        lemma_path_order(a, b, c);
    }
    assert forall|a: Seq<u8>, b: Seq<u8>, c: Seq<u8>|
        #![trigger lt(a, c), lt(a, b)]
        lt(a, c) implies lt(a, b) || lt(b, c) by {
        lemma_path_order(a, b, c);
        lemma_path_order(b, a, c);
        lemma_path_order(b, c, a);
    }
}

/// Sorts paths.
pub fn sort_paths(v: &mut Vec<FilePath>)
    ensures
        paths(final(v)@) == sorted(path_order(), paths(old(v)@)),
{
    let ghost start = paths(v@);
    let ghost lt = path_order();
    let n: usize = v.len();
    assert(start.take(0) =~= Seq::<Seq<u8>>::empty());
    for i in 0..n
        invariant
            n == start.len(),
            n == v@.len(),
            lt == path_order(),
            paths(v@).take(i as int) == sorted(lt, start.take(i as int)),
            paths(v@).skip(i as int) == start.skip(i as int),
    {
        let ghost now = paths(v@);
        let ghost done = now.take(i as int);
        let ghost x = now[i as int];
        assert(x == start[i as int]) by {
            assert(now.skip(i as int)[0] == start.skip(i as int)[0]);
        }
        let mut j: usize = i;
        while j > 0 && v[i].before(&v[j - 1])
            invariant
                j <= i < n,
                n == v@.len(),
                lt == path_order(),
                now == paths(v@),
                done == now.take(i as int),
                x == now[i as int],
                forall|k: int| j <= k < i ==> lt(x, #[trigger] done[k]),
            decreases j,
        {
            assert(done[j - 1] == v@[j - 1]@);
            assert(x == v@[i as int]@);
            j -= 1;
        }
        proof {
            if j > 0 {
                assert(done[j - 1] == v@[j - 1]@);
                assert(x == v@[i as int]@);
                assert(!lt(x, done[j - 1]));
            }
            lemma_inserted_at(lt, done, x, j as int);
            assert(start.take(i + 1).drop_last() =~= start.take(i as int));
            assert(start.take(i + 1).last() == x);
        }
        if j < i {
            let p = v.remove(i);
            v.insert(j, p);
        }
        proof {
            let after = paths(v@);
            assert(after.take(i + 1) =~= done.take(j as int).push(x) + done.skip(j as int));
            assert(after.skip(i + 1) =~= start.skip(i + 1)) by {
                assert forall|k: int| 0 <= k < n - (i + 1) implies #[trigger] after.skip(
                    i + 1,
                )[k] == start.skip(i + 1)[k] by {
                    assert(after[i + 1 + k] == now[i + 1 + k]);
                    assert(now.skip(i as int)[k + 1] == start.skip(i as int)[k + 1]);
                }
            }
        }
    }
    assert(start.take(n as int) =~= start);
    assert(paths(v@).take(n as int) =~= paths(v@));
}

/// Law: by size an unmeasured directory comes before a measured one and a bigger one
/// before a smaller one; two of one size stand in neither order.
pub proof fn law_by_size(a: EntryView, b: EntryView)
    ensures
        a.size is None && b.size is Some ==> before(SortKey::Size, a, b) && !before(
            SortKey::Size,
            b,
            a,
        ),
        a.size is Some && a.size == b.size ==> !before(SortKey::Size, a, b),
        a.size is Some && b.size is Some && a.size->0 > b.size->0 ==> before(SortKey::Size, a, b)
            && !before(SortKey::Size, b, a),
        a.size is None && b.size is None ==> before(SortKey::Size, a, b) == before(
            SortKey::Name,
            a,
            b,
        ),
{
}

/// Law: by modification time a newer directory comes before an older one, one without
/// a time after all others, and two of one time, or of none, stand as by name.
pub proof fn law_by_modified(a: EntryView, b: EntryView)
    ensures
        a.last_modified is Some && b.last_modified is None ==> before(SortKey::Modified, a, b)
            && !before(SortKey::Modified, b, a),
        a.last_modified is Some && b.last_modified is Some && a.last_modified->0
            > b.last_modified->0 ==> before(SortKey::Modified, a, b) && !before(
            SortKey::Modified,
            b,
            a,
        ),
        a.last_modified == b.last_modified ==> before(SortKey::Modified, a, b) == before(
            SortKey::Name,
            a,
            b,
        ),
{
}

/// Law: by name the project path decides, and the output directory where the project
/// paths have the same components. Size and time do not matter.
pub proof fn law_by_name(a: EntryView, b: EntryView)
    ensures
        path_lt(a.project_path, b.project_path) ==> before(SortKey::Name, a, b) && !before(
            SortKey::Name,
            b,
            a,
        ),
        components(a.project_path) == components(b.project_path) ==> before(SortKey::Name, a, b)
            == path_lt(a.target_dir, b.target_dir),
{
    lemma_path_order(a.project_path, b.project_path, a.project_path);
    lemma_path_order(b.project_path, a.project_path, b.project_path);
}

/// Law: the footer names the keys by the words size, modified and name, and they
/// follow each other in that order.
pub proof fn law_key_words(k: SortKey)
    ensures
        key_label(SortKey::Size) == seq!['s', 'i', 'z', 'e'],
        key_label(SortKey::Modified) == seq!['m', 'o', 'd', 'i', 'f', 'i', 'e', 'd'],
        key_label(SortKey::Name) == seq!['n', 'a', 'm', 'e'],
        k is Size ==> next_key(k) is Modified,
        k is Modified ==> next_key(k) is Name,
        k is Name ==> next_key(k) is Size,
{
    reveal_strlit("size");
    reveal_strlit("modified");
    reveal_strlit("name");
}

} // verus!
