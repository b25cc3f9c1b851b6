//! A search for projects, one directory after the other.
use vstd::prelude::*;
use vstd::slice::slice_to_vec;
use vstd::utf8::encode_utf8;

use crate::file_path::{paths, same_bytes, FilePath};
use crate::order::{law_table_order, sort_entries, sorted_entries, table_order, SortKey};
use crate::path::{joined, SLASH};
use crate::scan::discover::{rule_for, WalkRule};
use crate::scan::{default_target, entries_view, EntryView, OutputKind, TargetEntry, Timestamp};
use crate::seqs::{law_sorted, lemma_concat_contains, lemma_sorted_image};

verus! {

/// An entry of a directory listing.
#[derive(Debug)]
pub struct Listed {
    pub name: Vec<u8>,
    pub is_dir: bool,
}

/// What a `Listed` says.
#[verifier::ext_equal]
pub struct ListedView {
    pub name: Seq<u8>,
    pub is_dir: bool,
}

impl View for Listed {
    type V = ListedView;

    open spec fn view(&self) -> ListedView {
        ListedView { name: self.name@, is_dir: self.is_dir }
    }
}

/// What a listing says.
pub open spec fn listing_view(v: Seq<Listed>) -> Seq<ListedView> {
    v.map_values(|l: Listed| l@)
}

/// Whether a listing holds an entry of the given name and kind.
pub open spec fn lists(listing: Seq<ListedView>, name: Seq<u8>, is_dir: bool) -> bool {
    exists|i: int|
        0 <= i < listing.len() && (#[trigger] listing[i]).name == name && listing[i].is_dir
            == is_dir
}

/// Whether a directory with that listing is a project with output.
pub open spec fn holds_project(listing: Seq<ListedView>) -> bool {
    lists(listing, encode_utf8("Cargo.toml"@), false) && lists(listing, encode_utf8("target"@), true)
}

/// Whether a search goes on in an entry: any directory but `.git`, `.cargo`
/// and a `target` beside a manifest.
pub open spec fn explored(listing: Seq<ListedView>, i: int) -> bool {
    let name = listing[i].name;
    &&& listing[i].is_dir
    &&& name != encode_utf8(".git"@)
    &&& name != encode_utf8(".cargo"@)
    &&& !(name == encode_utf8("target"@) && lists(listing, encode_utf8("Cargo.toml"@), false))
}

/// The first `n` entries of a listing that a search goes on in, in order.
pub open spec fn explored_upto(listing: Seq<ListedView>, n: int) -> Seq<usize>
    decreases n,
{
    if n <= 0 {
        Seq::empty()
    } else if explored(listing, n - 1) {
        explored_upto(listing, n - 1).push((n - 1) as usize)
    } else {
        explored_upto(listing, n - 1)
    }
}

/// A tree of directories, by their paths: the listing of each.
pub type Tree = Map<Seq<u8>, Seq<ListedView>>;

/// The listing of a directory; nothing where it cannot be read.
pub open spec fn listing_of(tree: Tree, dir: Seq<u8>) -> Seq<ListedView> {
    if tree.dom().contains(dir) {
        tree[dir]
    } else {
        Seq::empty()
    }
}

/// What a search makes of one directory: whether it is a project with output,
/// and in which of its entries the search goes on.
#[derive(Debug)]
pub struct Findings {
    pub is_project: bool,
    pub explore: Vec<usize>,
}

/// Tests whether a listing holds an entry of the given name and kind.
fn find_listed(listing: &Vec<Listed>, name: &str, is_dir: bool) -> (b: bool)
    ensures
        b == lists(listing_view(listing@), encode_utf8(name@), is_dir),
{
    for i in 0..listing.len()
        invariant
            forall|j: int|
                0 <= j < i ==> !((#[trigger] listing@[j]).name@ == encode_utf8(name@)
                    && listing@[j].is_dir == is_dir),
    {
        if listing[i].is_dir == is_dir && same_bytes(listing[i].name.as_slice(), name.as_bytes()) {
            assert(listing_view(listing@)[i as int] == listing@[i as int]@);
            return true;
        }
    }
    false
}

/// Looks through the listing of one directory. It is a project if it holds
/// `Cargo.toml` and `target/`.
pub fn find_projects_task(listing: &Vec<Listed>) -> (r: Findings)
    ensures
        r.is_project == holds_project(listing_view(listing@)),
        r.explore@ == explored_upto(listing_view(listing@), listing@.len() as int),
{
    let has_manifest: bool = find_listed(listing, "Cargo.toml", false);
    let has_target: bool = find_listed(listing, "target", true);
    let mut explore: Vec<usize> = Vec::new();
    for i in 0..listing.len()
        invariant
            has_manifest == lists(listing_view(listing@), encode_utf8("Cargo.toml"@), false),
            explore@ == explored_upto(listing_view(listing@), i as int),
    {
        let name = listing[i].name.as_slice();
        if listing[i].is_dir && !same_bytes(name, ".git".as_bytes()) && !same_bytes(
            name,
            ".cargo".as_bytes(),
        ) && !(has_manifest && same_bytes(name, "target".as_bytes())) {
            explore.push(i);
        }
    }
    Findings { is_project: has_manifest && has_target, explore }
}

/// Law: both ways of looking for projects agree: a search goes on in a
/// directory exactly where a walk keeps it.
pub proof fn law_search_agrees_with_walk(listing: Seq<ListedView>, i: int, depth: nat)
    requires
        0 <= i < listing.len(),
        listing[i].is_dir,
        depth > 0,
    ensures
        explored(listing, i) <==> match rule_for(depth, listing[i].name) {
            WalkRule::Keep => true,
            WalkRule::Prune => false,
            WalkRule::PruneBesideManifest => !lists(
                listing,
                encode_utf8("Cargo.toml"@),
                false,
            ),
        },
{
}

/// The directories among the first `n` entries of a listing that a search goes
/// on in, in order.
pub open spec fn children_upto(dir: Seq<u8>, listing: Seq<ListedView>, n: int) -> Seq<Seq<u8>>
    decreases n,
{
    if n <= 0 {
        Seq::empty()
    } else if explored(listing, n - 1) {
        children_upto(dir, listing, n - 1).push(joined(dir, listing[n - 1].name))
    } else {
        children_upto(dir, listing, n - 1)
    }
}

/// What a `Search` says.
#[verifier::ext_equal]
pub struct SearchView {
    /// The directories that are still to be looked through.
    pub todo: Seq<Seq<u8>>,
    /// The projects that were found.
    pub projects: Seq<Seq<u8>>,
}

impl SearchView {
    /// A search that starts at a directory.
    pub open spec fn from(root: Seq<u8>) -> SearchView {
        SearchView { todo: seq![root], projects: Seq::empty() }
    }

    /// The search after a directory was looked through.
    pub open spec fn visit(self, dir: Seq<u8>, listing: Seq<ListedView>) -> SearchView {
        SearchView {
            todo: self.todo + children_upto(dir, listing, listing.len() as int),
            projects: if holds_project(listing) {
                self.projects.push(dir)
            } else {
                self.projects
            },
        }
    }

    /// The search after it went on in the directory of the given number, if
    /// there is one.
    pub open spec fn step(self, tree: Tree, pick: int) -> SearchView {
        if 0 <= pick < self.todo.len() {
            let dir = self.todo[pick];
            SearchView { todo: self.todo.remove(pick), ..self }.visit(dir, listing_of(tree, dir))
        } else {
            self
        }
    }

    /// The search after it went on in one directory after the other.
    pub open spec fn run(self, tree: Tree, picks: Seq<int>) -> SearchView
        decreases picks.len(),
    {
        if picks.len() == 0 {
            self
        } else {
            self.run(tree, picks.drop_last()).step(tree, picks.last())
        }
    }
}

/// A search for projects below a directory.
#[derive(Debug)]
pub struct Search {
    /// The directories that are still to be looked through.
    pub todo: Vec<FilePath>,
    /// The projects that were found.
    pub projects: Vec<FilePath>,
}

impl View for Search {
    type V = SearchView;

    open spec fn view(&self) -> SearchView {
        SearchView { todo: paths(self.todo@), projects: paths(self.projects@) }
    }
}

impl Search {
    /// Starts a search at a directory.
    pub fn new(root: FilePath) -> (r: Search)
        ensures
            r@ == SearchView::from(root@),
    {
        let mut todo = Vec::new();
        todo.push(root);
        let r = Search { todo, projects: Vec::new() };
        assert(r@ =~= SearchView::from(root@));
        r
    }

    /// Takes the directory to look through next, if there is one.
    pub fn next(&mut self) -> (r: Option<FilePath>)
        ensures
            match r {
                Some(dir) => old(self)@.todo.len() > 0 && dir@ == old(self)@.todo.last()
                    && final(self)@ == (SearchView {
                    todo: old(self)@.todo.drop_last(),
                    ..old(self)@
                }),
                None => old(self)@.todo.len() == 0 && final(self)@ == old(self)@,
            },
    {
        let ghost before = self@;
        let r = self.todo.pop();
        proof {
            if r is Some {
                assert(self@.todo =~= before.todo.drop_last());
            } else {
                assert(self@.todo =~= before.todo);
            }
        }
        r
    }

    /// Looks through a directory: reports it if it is a project, and goes on in
    /// its entries.
    pub fn visit(&mut self, dir: FilePath, listing: &Vec<Listed>)
        ensures
            final(self)@ == old(self)@.visit(dir@, listing_view(listing@)),
    {
        let ghost before = self@;
        let ghost all = listing_view(listing@);
        let findings = find_projects_task(listing);
        assert(listing.len() <= usize::MAX);
        proof {
            lemma_children(dir@, all, all.len() as int);
        }
        let ghost children = children_upto(dir@, all, all.len() as int);
        for i in 0..findings.explore.len()
            invariant
                all == listing_view(listing@),
                findings.explore@.len() == children.len(),
                forall|j: int|
                    0 <= j < children.len() ==> (#[trigger] findings.explore@[j]) < all.len()
                        && children[j] == joined(dir@, all[findings.explore@[j] as int].name),
                self@ == (SearchView { todo: before.todo + children.take(i as int), ..before }),
        {
            let ghost queued = self@.todo;
            let k: usize = findings.explore[i];
            assert(all[k as int] == listing@[k as int]@);
            let name = FilePath::from_bytes(slice_to_vec(listing[k].name.as_slice()));
            self.todo.push(dir.join_path(&name));
            assert(self@.todo =~= queued.push(children[i as int]));
            assert(self@.todo =~= before.todo + children.take(i + 1));
        }
        assert(children.take(children.len() as int) =~= children);
        if findings.is_project {
            self.projects.push(dir);
            assert(self@.projects =~= before.projects.push(dir@));
        }
    }
}

/// The directories to go on in are those of the entries to go on in.
proof fn lemma_children(dir: Seq<u8>, listing: Seq<ListedView>, n: int)
    requires
        0 <= n <= listing.len() <= usize::MAX,
    ensures
        children_upto(dir, listing, n).len() == explored_upto(listing, n).len(),
        forall|j: int|
            0 <= j < children_upto(dir, listing, n).len() ==> (#[trigger] explored_upto(
                listing,
                n,
            )[j]) < n && children_upto(dir, listing, n)[j] == joined(
                dir,
                listing[explored_upto(listing, n)[j] as int].name,
            ),
    decreases n,
{
    if n > 0 {
        lemma_children(dir, listing, n - 1);
    }
}

/// Law: to take the next directory and look through it is one step of a search.
pub proof fn law_next_then_visit(s: SearchView, tree: Tree)
    requires
        s.todo.len() > 0,
    ensures
        (SearchView { todo: s.todo.drop_last(), ..s }).visit(
            s.todo.last(),
            listing_of(tree, s.todo.last()),
        ) == s.step(tree, s.todo.len() - 1),
{
    assert(s.todo.remove(s.todo.len() - 1) =~= s.todo.drop_last());
}

/// Whether a search goes on from one directory in another.
pub open spec fn leads_to(tree: Tree, dir: Seq<u8>, child: Seq<u8>) -> bool {
    let listing = listing_of(tree, dir);
    exists|i: int|
        0 <= i < listing.len() && #[trigger] explored(listing, i) && child == joined(
            dir,
            listing[i].name,
        )
}

/// Whether a search comes from `root` to a directory in the given number of
/// steps.
pub open spec fn reached_in(tree: Tree, root: Seq<u8>, dir: Seq<u8>, steps: nat) -> bool
    decreases steps,
{
    if steps == 0 {
        dir == root
    } else {
        exists|p: Seq<u8>|
            #[trigger] leads_to(tree, p, dir) && reached_in(tree, root, p, (steps - 1) as nat)
    }
}

/// Whether a search comes from `root` to a directory.
pub open spec fn reached(tree: Tree, root: Seq<u8>, dir: Seq<u8>) -> bool {
    exists|steps: nat| reached_in(tree, root, dir, steps)
}

/// Whether a name can stand in a listing: it is not empty and holds no slash.
pub open spec fn is_entry_name(name: Seq<u8>) -> bool {
    name.len() > 0 && !name.contains(SLASH)
}

/// Whether the listings of a tree are such: they hold names of entries, none
/// of them twice.
pub open spec fn is_tree(tree: Tree) -> bool {
    forall|dir: Seq<u8>| #[trigger] is_listing(listing_of(tree, dir))
}

/// Whether the names in a listing are names of entries, none of them twice.
pub open spec fn is_listing(listing: Seq<ListedView>) -> bool {
    &&& forall|i: int| 0 <= i < listing.len() ==> is_entry_name((#[trigger] listing[i]).name)
    &&& forall|i: int, j: int|
        0 <= i < j < listing.len() ==> (#[trigger] listing[i]).name != (#[trigger] listing[j]).name
}

/// Whether a path is `root` or could be below it.
spec fn is_below(root: Seq<u8>, dir: Seq<u8>) -> bool {
    dir == root || (dir.len() > root.len() && dir.last() != SLASH)
}

/// What stands before the name of an entry in its path.
spec fn stem(dir: Seq<u8>) -> Seq<u8> {
    if dir.len() == 0 || dir.last() == SLASH {
        dir
    } else {
        dir.push(SLASH)
    }
}

/// The path of an entry is longer than that of its directory and ends in its
/// name.
proof fn lemma_joined_name(dir: Seq<u8>, name: Seq<u8>)
    requires
        is_entry_name(name),
    ensures
        joined(dir, name) == stem(dir) + name,
        joined(dir, name).len() > dir.len(),
        joined(dir, name).last() != SLASH,
{
    assert(name[0] != SLASH) by {
        assert(name.contains(name[0]));
    }
    assert(name.contains(name.last()));
    assert(joined(dir, name) =~= stem(dir) + name);
    assert(joined(dir, name).last() == name.last());
}

/// The path of an entry below `root` tells its directory and its name.
proof fn lemma_path_tells(root: Seq<u8>, a: Seq<u8>, m: Seq<u8>, b: Seq<u8>, n: Seq<u8>)
    requires
        is_below(root, a),
        is_below(root, b),
        is_entry_name(m),
        is_entry_name(n),
        joined(a, m) == joined(b, n),
    ensures
        a == b,
        m == n,
{
    lemma_joined_name(a, m);
    lemma_joined_name(b, n);
    let p = joined(a, m);
    let x = stem(a);
    let y = stem(b);
    if x.len() < y.len() {
        assert(p[y.len() - 1] == SLASH);
        assert(p[y.len() - 1] == m[y.len() - 1 - x.len()]);
        assert(m.contains(SLASH));
    } else if y.len() < x.len() {
        assert(p[x.len() - 1] == SLASH);
        assert(p[x.len() - 1] == n[x.len() - 1 - y.len()]);
        assert(n.contains(SLASH));
    }
    assert(x =~= p.take(x.len() as int));
    assert(y =~= p.take(x.len() as int));
    assert(m =~= p.skip(x.len() as int));
    assert(n =~= p.skip(x.len() as int));
    if a.len() == b.len() {
        assert(a =~= x.take(a.len() as int));
        assert(b =~= x.take(a.len() as int));
    }
}

/// A search leads below its start only.
proof fn lemma_reached_below(tree: Tree, root: Seq<u8>, dir: Seq<u8>, steps: nat)
    requires
        is_tree(tree),
        reached_in(tree, root, dir, steps),
    ensures
        is_below(root, dir),
    decreases steps,
{
    if steps > 0 {
        let p = choose|p: Seq<u8>|
            #[trigger] leads_to(tree, p, dir) && reached_in(tree, root, p, (steps - 1) as nat);
        lemma_reached_below(tree, root, p, (steps - 1) as nat);
        let listing = listing_of(tree, p);
        let i = choose|i: int|
            0 <= i < listing.len() && #[trigger] explored(listing, i) && dir == joined(
                p,
                listing[i].name,
            );
        assert(is_listing(listing));
        lemma_joined_name(p, listing[i].name);
    }
}

/// Which directories `children_upto` holds, each once.
proof fn lemma_children_are(dir: Seq<u8>, listing: Seq<ListedView>, n: int)
    requires
        is_listing(listing),
        0 <= n <= listing.len(),
    ensures
        children_upto(dir, listing, n).no_duplicates(),
        forall|c: Seq<u8>| #[trigger]
            children_upto(dir, listing, n).contains(c) <==> exists|i: int|
                0 <= i < n && #[trigger] explored(listing, i) && c == joined(dir, listing[i].name),
    decreases n,
{
    if n > 0 {
        lemma_children_are(dir, listing, n - 1);
        let before = children_upto(dir, listing, n - 1);
        let after = children_upto(dir, listing, n);
        let last = joined(dir, listing[n - 1].name);
        if explored(listing, n - 1) {
            if before.contains(last) {
                let i = choose|i: int|
                    0 <= i < n - 1 && #[trigger] explored(listing, i) && last == joined(
                        dir,
                        listing[i].name,
                    );
                lemma_path_tells(dir, dir, listing[i].name, dir, listing[n - 1].name);
                assert(listing[i].name != listing[n - 1].name);
            }
            assert(after[after.len() - 1] == last);
            assert forall|c: Seq<u8>| #[trigger] after.contains(c) <==> exists|i: int|
                0 <= i < n && #[trigger] explored(listing, i) && c == joined(
                    dir,
                    listing[i].name,
                ) by {
                assert(after.contains(c) <==> before.contains(c) || c == last) by {
                    if before.contains(c) {
                        let k = choose|k: int| 0 <= k < before.len() && before[k] == c;
                        assert(after[k] == c);
                    }
                }
            }
        }
    }
}

/// The directories that were looked through, in order.
spec fn seen_by(s: SearchView, tree: Tree, picks: Seq<int>) -> Seq<Seq<u8>>
    decreases picks.len(),
{
    if picks.len() == 0 {
        Seq::empty()
    } else {
        let before = s.run(tree, picks.drop_last());
        let seen = seen_by(s, tree, picks.drop_last());
        if 0 <= picks.last() < before.todo.len() {
            seen.push(before.todo[picks.last()])
        } else {
            seen
        }
    }
}

/// What holds of a search from `root` that has looked through `seen`.
spec fn search_holds(tree: Tree, root: Seq<u8>, seen: Seq<Seq<u8>>, s: SearchView) -> bool {
    &&& seen.no_duplicates()
    &&& s.todo.no_duplicates()
    &&& forall|d: Seq<u8>| !(#[trigger] seen.contains(d) && s.todo.contains(d))
    &&& forall|d: Seq<u8>| #[trigger] seen.contains(d) ==> reached(tree, root, d)
    &&& forall|d: Seq<u8>| #[trigger] s.todo.contains(d) ==> reached(tree, root, d)
    &&& seen.contains(root) || s.todo.contains(root)
    &&& forall|d: Seq<u8>, c: Seq<u8>|
        seen.contains(d) && #[trigger] leads_to(tree, d, c) ==> seen.contains(c) || s.todo.contains(
            c,
        )
    &&& forall|c: Seq<u8>| #[trigger] seen.contains(c) ==> c == root || has_seen_parent(tree, seen, c)
    &&& forall|c: Seq<u8>| #[trigger]
        s.todo.contains(c) ==> c == root || has_seen_parent(tree, seen, c)
    &&& s.projects.no_duplicates()
    &&& forall|d: Seq<u8>| #[trigger]
        s.projects.contains(d) <==> seen.contains(d) && holds_project(listing_of(tree, d))
}

/// Whether a search came to a directory from one that it has looked through.
spec fn has_seen_parent(tree: Tree, seen: Seq<Seq<u8>>, c: Seq<u8>) -> bool {
    exists|p: Seq<u8>| seen.contains(p) && #[trigger] leads_to(tree, p, c)
}

/// Which items a sequence holds after one was added.
proof fn lemma_push_contains<A>(s: Seq<A>, x: A)
    ensures
        forall|y: A| #[trigger] s.push(x).contains(y) <==> s.contains(y) || y == x,
        s.no_duplicates() && !s.contains(x) ==> s.push(x).no_duplicates(),
{
    assert(s.push(x)[s.len() as int] == x);
    assert forall|y: A| s.contains(y) implies #[trigger] s.push(x).contains(y) by {
        let k = choose|k: int| 0 <= k < s.len() && s[k] == y;
        assert(s.push(x)[k] == y);
    }
}

/// Which items a sequence holds after one was removed.
proof fn lemma_remove_contains<A>(s: Seq<A>, k: int)
    requires
        s.no_duplicates(),
        0 <= k < s.len(),
    ensures
        forall|y: A| #[trigger] s.remove(k).contains(y) <==> s.contains(y) && y != s[k],
        s.remove(k).no_duplicates(),
{
    let r = s.remove(k);
    assert forall|y: A| #[trigger] r.contains(y) <==> s.contains(y) && y != s[k] by {
        if s.contains(y) && y != s[k] {
            let i = choose|i: int| 0 <= i < s.len() && s[i] == y;
            if i < k {
                assert(r[i] == y);
            } else {
                assert(r[i - 1] == y);
            }
        }
    }
}

/// One directory more keeps what holds of a search.
proof fn lemma_search_step(
    tree: Tree,
    root: Seq<u8>,
    seen: Seq<Seq<u8>>,
    s: SearchView,
    pick: int,
)
    requires
        is_tree(tree),
        search_holds(tree, root, seen, s),
        0 <= pick < s.todo.len(),
    ensures
        search_holds(tree, root, seen.push(s.todo[pick]), s.step(tree, pick)),
{
    let dir = s.todo[pick];
    let listing = listing_of(tree, dir);
    let rest = s.todo.remove(pick);
    let children = children_upto(dir, listing, listing.len() as int);
    let now = seen.push(dir);
    let t = s.step(tree, pick);
    assert(is_listing(listing));
    assert(s.todo.contains(dir));
    lemma_push_contains(seen, dir);
    lemma_remove_contains(s.todo, pick);
    lemma_children_are(dir, listing, listing.len() as int);
    assert forall|c: Seq<u8>| #[trigger] children.contains(c) <==> leads_to(tree, dir, c) by {}
    // Nothing leads to a child of this directory but the directory itself.
    assert forall|c: Seq<u8>| #[trigger] children.contains(c) implies !now.contains(c)
        && !rest.contains(c) by {
        let i = choose|i: int|
            0 <= i < listing.len() && #[trigger] explored(listing, i) && c == joined(
                dir,
                listing[i].name,
            );
        lemma_joined_name(dir, listing[i].name);
        assert(reached(tree, root, dir));
        let n = choose|n: nat| reached_in(tree, root, dir, n);
        lemma_reached_below(tree, root, dir, n);
        if seen.contains(c) || s.todo.contains(c) {
            assert(c != root);
            assert(has_seen_parent(tree, seen, c));
            let p = choose|p: Seq<u8>| seen.contains(p) && #[trigger] leads_to(tree, p, c);
            let other = listing_of(tree, p);
            let j = choose|j: int|
                0 <= j < other.len() && #[trigger] explored(other, j) && c == joined(
                    p,
                    other[j].name,
                );
            assert(is_listing(other));
            assert(reached(tree, root, p));
            let m = choose|m: nat| reached_in(tree, root, p, m);
            lemma_reached_below(tree, root, p, m);
            lemma_path_tells(root, dir, listing[i].name, p, other[j].name);
        }
    }
    lemma_concat_contains(rest, children);
    assert forall|c: Seq<u8>| #[trigger] children.contains(c) implies reached(tree, root, c) by {
        assert(reached(tree, root, dir));
        let n = choose|n: nat| reached_in(tree, root, dir, n);
        assert(leads_to(tree, dir, c));
        assert(reached_in(tree, root, c, n + 1));
    }
    assert forall|c: Seq<u8>| has_seen_parent(tree, seen, c) implies has_seen_parent(
        tree,
        now,
        c,
    ) by {
        let p = choose|p: Seq<u8>| seen.contains(p) && #[trigger] leads_to(tree, p, c);
        assert(now.contains(p));
    }
    assert forall|c: Seq<u8>| #[trigger] children.contains(c) implies has_seen_parent(
        tree,
        now,
        c,
    ) by {
        assert(now.contains(dir) && leads_to(tree, dir, c));
    }
    lemma_push_contains(s.projects, dir);
    assert(!s.projects.contains(dir));
}

/// What holds of every search from `root`.
proof fn lemma_search(tree: Tree, root: Seq<u8>, picks: Seq<int>)
    requires
        is_tree(tree),
    ensures
        search_holds(
            tree,
            root,
            seen_by(SearchView::from(root), tree, picks),
            SearchView::from(root).run(tree, picks),
        ),
    decreases picks.len(),
{
    let start = SearchView::from(root);
    if picks.len() == 0 {
        assert(reached_in(tree, root, root, 0));
        assert(start.todo[0] == root);
    } else {
        lemma_search(tree, root, picks.drop_last());
        let s = start.run(tree, picks.drop_last());
        if 0 <= picks.last() < s.todo.len() {
            lemma_search_step(
                tree,
                root,
                seen_by(start, tree, picks.drop_last()),
                s,
                picks.last(),
            );
        }
    }
}

/// A search with nothing left has looked through all that it comes to.
proof fn lemma_reached_is_seen(
    tree: Tree,
    root: Seq<u8>,
    seen: Seq<Seq<u8>>,
    s: SearchView,
    dir: Seq<u8>,
    steps: nat,
)
    requires
        search_holds(tree, root, seen, s),
        s.todo.len() == 0,
        reached_in(tree, root, dir, steps),
    ensures
        seen.contains(dir),
    decreases steps,
{
    if steps > 0 {
        let p = choose|p: Seq<u8>|
            #[trigger] leads_to(tree, p, dir) && reached_in(tree, root, p, (steps - 1) as nat);
        lemma_reached_is_seen(tree, root, seen, s, p, (steps - 1) as nat);
    }
}

/// Law: in whatever order a search goes through a tree, when nothing is left it
/// has found, each once, exactly the directories that it comes to from its
/// start through directories that are not left out and that hold `Cargo.toml`
/// and `target/`.
pub proof fn law_search(tree: Tree, root: Seq<u8>, picks: Seq<int>)
    requires
        is_tree(tree),
        SearchView::from(root).run(tree, picks).todo.len() == 0,
    ensures
        ({
            let found = SearchView::from(root).run(tree, picks).projects;
            &&& found.no_duplicates()
            &&& forall|d: Seq<u8>| #[trigger]
                found.contains(d) <==> reached(tree, root, d) && holds_project(listing_of(tree, d))
        }),
{
    lemma_search(tree, root, picks);
    let s = SearchView::from(root).run(tree, picks);
    let seen = seen_by(SearchView::from(root), tree, picks);
    assert forall|d: Seq<u8>| #[trigger] s.projects.contains(d) <==> reached(tree, root, d)
        && holds_project(listing_of(tree, d)) by {
        if reached(tree, root, d) {
            let n = choose|n: nat| reached_in(tree, root, d, n);
            lemma_reached_is_seen(tree, root, seen, s, d, n);
        }
    }
}

/// Whether a search had a directory to go on in at each of its steps.
pub open spec fn goes_on(s: SearchView, tree: Tree, picks: Seq<int>) -> bool
    decreases picks.len(),
{
    picks.len() == 0 || (goes_on(s, tree, picks.drop_last()) && 0 <= picks.last() < s.run(
        tree,
        picks.drop_last(),
    ).todo.len())
}

/// Such a search has looked through one directory at each step.
proof fn lemma_seen_len(s: SearchView, tree: Tree, picks: Seq<int>)
    requires
        goes_on(s, tree, picks),
    ensures
        seen_by(s, tree, picks).len() == picks.len(),
    decreases picks.len(),
{
    if picks.len() > 0 {
        lemma_seen_len(s, tree, picks.drop_last());
    }
}

/// From finitely many directories a search goes on in finitely many.
proof fn lemma_leads_to_finitely_many(tree: Tree, dirs: Set<Seq<u8>>) -> (r: Set<Seq<u8>>)
    requires
        is_tree(tree),
        dirs.finite(),
    ensures
        r.finite(),
        forall|d: Seq<u8>, c: Seq<u8>|
            dirs.contains(d) && #[trigger] leads_to(tree, d, c) ==> r.contains(c),
    decreases dirs.len(),
{
    broadcast use vstd::seq_lib::seq_to_set_is_finite;

    if dirs.len() == 0 {
        Set::empty()
    } else {
        let a = dirs.choose();
        let rest = lemma_leads_to_finitely_many(tree, dirs.remove(a));
        let listing = listing_of(tree, a);
        let children = children_upto(a, listing, listing.len() as int);
        assert(is_listing(listing));
        lemma_children_are(a, listing, listing.len() as int);
        let r = rest.union(children.to_set());
        assert forall|d: Seq<u8>, c: Seq<u8>|
            dirs.contains(d) && #[trigger] leads_to(tree, d, c) implies r.contains(c) by {
            if d == a {
                assert(children.contains(c));
            } else {
                assert(dirs.remove(a).contains(d));
            }
        }
        r
    }
}

/// Law: a search of a tree of finitely many directories ends: there is a
/// number of steps that none takes more of.
pub proof fn law_search_ends(tree: Tree, root: Seq<u8>) -> (most: nat)
    requires
        is_tree(tree),
        tree.dom().finite(),
    ensures
        forall|picks: Seq<int>| #[trigger]
            goes_on(SearchView::from(root), tree, picks) ==> picks.len() <= most,
{
    broadcast use vstd::seq_lib::seq_to_set_is_finite;

    let start = SearchView::from(root);
    let below = lemma_leads_to_finitely_many(tree, tree.dom());
    let all = below.insert(root);
    assert forall|picks: Seq<int>| #[trigger] goes_on(start, tree, picks) implies picks.len()
        <= all.len() by {
        lemma_search(tree, root, picks);
        lemma_seen_len(start, tree, picks);
        let seen = seen_by(start, tree, picks);
        seen.unique_seq_to_set();
        assert forall|c: Seq<u8>| #[trigger] seen.to_set().contains(c) implies all.contains(c) by {
            assert(seen.contains(c));
            if c != root {
                assert(has_seen_parent(tree, seen, c));
                let p = choose|p: Seq<u8>| seen.contains(p) && #[trigger] leads_to(tree, p, c);
                assert(tree.dom().contains(p));
            }
        }
        vstd::set_lib::lemma_len_subset(seen.to_set(), all);
    }
    all.len()
}

/// A project and what was measured of its output directory.
#[derive(Debug)]
pub struct Reading {
    pub project_path: FilePath,
    pub size: u64,
    pub last_modified: Timestamp,
}

/// The entry of a project that was measured.
pub open spec fn read_entry(r: Reading) -> EntryView {
    EntryView {
        project_path: r.project_path@,
        target_dir: default_target(r.project_path@),
        kind: OutputKind::Target,
        size: Some(r.size),
        last_modified: Some(r.last_modified),
    }
}

/// The entries of measured projects, the biggest first.
pub open spec fn scanned(readings: Seq<Reading>) -> Seq<EntryView> {
    sorted_entries(SortKey::Size, readings.map_values(|x: Reading| read_entry(x)))
}

/// The entries of projects that were measured, the biggest first.
pub fn scan(readings: &Vec<Reading>) -> (r: Vec<TargetEntry>)
    ensures
        entries_view(r@) == scanned(readings@),
{
    let ghost read = |x: Reading| read_entry(x);
    let mut r: Vec<TargetEntry> = Vec::new();
    for i in 0..readings.len()
        invariant
            read == (|x: Reading| read_entry(x)),
            entries_view(r@) == readings@.take(i as int).map_values(read),
    {
        let ghost before = r@;
        let x = &readings[i];
        r.push(
            TargetEntry {
                project_path: x.project_path.clone(),
                target_dir: x.project_path.join("target"),
                kind: OutputKind::Target,
                size: Some(x.size),
                last_modified: Some(x.last_modified),
            },
        );
        assert(entries_view(r@) =~= entries_view(before).push(read_entry(readings@[i as int])));
        assert(entries_view(r@) =~= readings@.take(i + 1).map_values(read));
    }
    assert(readings@.take(readings@.len() as int) =~= readings@);
    sort_entries(SortKey::Size, &mut r);
    r
}

/// The paths of the projects of entries.
pub open spec fn entry_paths(s: Seq<EntryView>) -> Seq<Seq<u8>> {
    s.map_values(|e: EntryView| e.project_path)
}

/// Law: a scan has one entry for each project that was measured, and none is
/// bigger than the one before it.
pub proof fn law_scan(readings: Seq<Reading>)
    ensures
        scanned(readings).len() == readings.len(),
        entry_paths(scanned(readings)).to_multiset() == readings.map_values(
            |x: Reading| x.project_path@,
        ).to_multiset(),
        forall|i: int|
            0 <= i < readings.len() ==> readings.map_values(
                |x: Reading| read_entry(x),
            ).contains(#[trigger] scanned(readings)[i]),
        forall|i: int, j: int|
            0 <= i < j < readings.len() ==> (#[trigger] scanned(readings)[j]).size->0
                <= (#[trigger] scanned(readings)[i]).size->0,
{
    broadcast use vstd::seq_lib::group_to_multiset_ensures;

    let read = readings.map_values(|x: Reading| read_entry(x));
    let r = scanned(readings);
    let lt = table_order(SortKey::Size);
    let path = |e: EntryView| e.project_path;
    law_table_order(SortKey::Size);
    law_sorted(lt, read);
    lemma_sorted_image(lt, path, read);
    assert(read.map_values(path) =~= readings.map_values(|x: Reading| x.project_path@));
    assert forall|i: int| 0 <= i < readings.len() implies read.contains(#[trigger] r[i]) by {
        assert(r.to_multiset().count(r[i]) > 0);
        assert(read.to_multiset().count(r[i]) > 0);
    }
    assert forall|i: int, j: int| 0 <= i < j < readings.len() implies (#[trigger] r[j]).size->0 <= (
    #[trigger] r[i]).size->0 by {
        assert(!lt(r[j], r[i]));
        assert(read.contains(r[i]) && read.contains(r[j]));
    }
}

/// Law: a scan of a tree has one entry for each directory that holds
/// `Cargo.toml` and `target/` and that a search comes to from the start of the
/// scan, and no other entry.
pub proof fn law_scan_of_tree(
    tree: Tree,
    root: Seq<u8>,
    picks: Seq<int>,
    readings: Seq<Reading>,
)
    requires
        is_tree(tree),
        SearchView::from(root).run(tree, picks).todo.len() == 0,
        readings.map_values(|x: Reading| x.project_path@).to_multiset() == SearchView::from(
            root,
        ).run(tree, picks).projects.to_multiset(),
    ensures
        entry_paths(scanned(readings)).no_duplicates(),
        forall|d: Seq<u8>| #[trigger]
            entry_paths(scanned(readings)).contains(d) <==> reached(tree, root, d)
                && holds_project(listing_of(tree, d)),
{
    broadcast use vstd::seq_lib::group_to_multiset_ensures;

    law_search(tree, root, picks);
    law_scan(readings);
    let found = SearchView::from(root).run(tree, picks).projects;
    let r = entry_paths(scanned(readings));
    found.lemma_multiset_has_no_duplicates();
    r.lemma_multiset_has_no_duplicates_conv();
    assert forall|d: Seq<u8>| #[trigger] r.contains(d) <==> reached(tree, root, d)
        && holds_project(listing_of(tree, d)) by {
        assert(r.to_multiset().count(d) == found.to_multiset().count(d));
        assert(found.contains(d) <==> found.to_multiset().count(d) > 0);
        assert(r.contains(d) <==> r.to_multiset().count(d) > 0);
    }
}

/// Law: a directory is a project with output exactly if a file `Cargo.toml` and a
/// directory `target` are listed in it.
pub proof fn law_holds_project(listing: Seq<ListedView>)
    ensures
        holds_project(listing) <==> {
            &&& exists|i: int|
                0 <= i < listing.len() && (#[trigger] listing[i]).name == seq![
                    67u8,
                    97,
                    114,
                    103,
                    111,
                    46,
                    116,
                    111,
                    109,
                    108,
                ] && !listing[i].is_dir
            &&& exists|i: int|
                0 <= i < listing.len() && (#[trigger] listing[i]).name == seq![
                    116u8,
                    97,
                    114,
                    103,
                    101,
                    116,
                ] && listing[i].is_dir
        },
{
    crate::scan::discover::lemma_known_names();
}

/// Law: a search goes on in every directory but `.git`, `.cargo` and, where a manifest
/// is listed beside it, `target`; it does not go on in a file.
pub proof fn law_explored(listing: Seq<ListedView>, i: int)
    ensures
        explored(listing, i) <==> {
            &&& listing[i].is_dir
            &&& listing[i].name != seq![46u8, 103, 105, 116]
            &&& listing[i].name != seq![46u8, 99, 97, 114, 103, 111]
            &&& listing[i].name == seq![116u8, 97, 114, 103, 101, 116] ==> forall|j: int|
                0 <= j < listing.len() ==> (#[trigger] listing[j]).name != seq![
                    67u8,
                    97,
                    114,
                    103,
                    111,
                    46,
                    116,
                    111,
                    109,
                    108,
                ] || listing[j].is_dir
        },
{
    crate::scan::discover::lemma_known_names();
}

/// Law: the entries that a search goes on in are listed in their order, each once,
/// and all of them are.
pub proof fn law_explore_list(listing: Seq<ListedView>, n: int)
    requires
        0 <= n <= listing.len() <= usize::MAX,
    ensures
        forall|a: int, b: int|
            0 <= a < b < explored_upto(listing, n).len() ==> (#[trigger] explored_upto(
                listing,
                n,
            )[a]) < (#[trigger] explored_upto(listing, n)[b]),
        forall|i: int|
            0 <= i < n ==> (#[trigger] explored(listing, i) <==> explored_upto(
                listing,
                n,
            ).contains(i as usize)),
        forall|a: int|
            0 <= a < explored_upto(listing, n).len() ==> (#[trigger] explored_upto(listing, n)[a])
                < n,
    decreases n,
{
    if n > 0 {
        law_explore_list(listing, n - 1);
        let before = explored_upto(listing, n - 1);
        let after = explored_upto(listing, n);
        assert forall|i: int| 0 <= i < n implies (#[trigger] explored(listing, i)
            <==> after.contains(i as usize)) by {
            if i < n - 1 {
                if explored(listing, i) {
                    let k = choose|k: int| 0 <= k < before.len() && before[k] == i as usize;
                    assert(after[k] == i as usize);
                }
                if after.contains(i as usize) {
                    let k = choose|k: int| 0 <= k < after.len() && after[k] == i as usize;
                    assert(k < before.len());
                    assert(before[k] == i as usize);
                }
            } else {
                if explored(listing, i) {
                    assert(after[after.len() - 1] == i as usize);
                }
                if after.contains(i as usize) && !explored(listing, i) {
                    let k = choose|k: int| 0 <= k < after.len() && after[k] == i as usize;
                    assert(before[k] < n - 1);
                }
            }
        }
    }
}

/// Law: a step of a search takes a directory off the list and puts its own directories
/// at the end, in the order of the listing; the directory itself is found if it is a
/// project.
pub proof fn law_visit(s: SearchView, dir: Seq<u8>, listing: Seq<ListedView>)
    requires
        listing.len() <= usize::MAX,
    ensures
        ({
            let t = s.visit(dir, listing);
            let on = explored_upto(listing, listing.len() as int);
            &&& t.todo.len() == s.todo.len() + on.len()
            &&& t.todo.take(s.todo.len() as int) == s.todo
            &&& forall|j: int|
                0 <= j < on.len() ==> t.todo[s.todo.len() + j] == joined(
                    dir,
                    listing[(#[trigger] on[j]) as int].name,
                )
            &&& holds_project(listing) ==> t.projects == s.projects.push(dir)
            &&& !holds_project(listing) ==> t.projects == s.projects
        }),
{
    lemma_children(dir, listing, listing.len() as int);
    let on = explored_upto(listing, listing.len() as int);
    let children = children_upto(dir, listing, listing.len() as int);
    let t = s.visit(dir, listing);
    assert(t.todo.take(s.todo.len() as int) =~= s.todo);
    assert forall|j: int| 0 <= j < on.len() implies t.todo[s.todo.len() + j] == joined(
        dir,
        listing[(#[trigger] on[j]) as int].name,
    ) by {
        assert(t.todo[s.todo.len() + j] == children[j]);
    }
}

/// Law: a search comes to its start, and from any directory that it comes to it comes
/// to what it goes on in there. A directory that cannot be read leads nowhere.
pub proof fn law_reached(tree: Tree, root: Seq<u8>, dir: Seq<u8>, i: int)
    ensures
        reached(tree, root, root),
        reached(tree, root, dir) && 0 <= i < listing_of(tree, dir).len() && explored(
            listing_of(tree, dir),
            i,
        ) ==> reached(tree, root, joined(dir, listing_of(tree, dir)[i].name)),
        !tree.dom().contains(dir) ==> listing_of(tree, dir).len() == 0,
        tree.dom().contains(dir) ==> listing_of(tree, dir) == tree[dir],
{
    assert(reached_in(tree, root, root, 0));
    let listing = listing_of(tree, dir);
    if reached(tree, root, dir) && 0 <= i < listing.len() && explored(listing, i) {
        let child = joined(dir, listing[i].name);
        let n = choose|n: nat| reached_in(tree, root, dir, n);
        assert(leads_to(tree, dir, child));
        assert(reached_in(tree, root, child, n + 1));
    }
}

/// Law: what was measured of a project is shown of its default output directory.
pub proof fn law_read_entry(r: Reading)
    ensures
        read_entry(r).project_path == r.project_path@,
        read_entry(r).target_dir == joined(
            r.project_path@,
            seq![116u8, 97, 114, 103, 101, 116],
        ),
        read_entry(r).kind == OutputKind::Target,
        read_entry(r).size == Some(r.size),
        read_entry(r).last_modified == Some(r.last_modified),
{
    crate::scan::discover::lemma_known_names();
}

} // verus!
