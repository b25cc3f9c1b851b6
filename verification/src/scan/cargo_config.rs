//! Output directories from Cargo's config files.
use vstd::prelude::*;
use vstd::utf8::encode_utf8;

use crate::file_path::{law_ascii_bytes, lossy_text, path_view, paths, same_bytes, FilePath};
use crate::path::{
    absolutized, ancestors, components, file_name, is_name, joined, law_joined_name,
    law_parent_drops_last_component, law_something_is_there, parent, root_dir, same_path, SLASH,
};
use crate::scan::config_text::{build_dirs, parse_build_dirs};
use crate::scan::{
    default_target, discovered_view, DiscoveredEntry, DiscoveredView, OutputKind,
};
use crate::seqs::{law_position, lemma_concat_contains, position};
use crate::text::{
    chars_of, contains, contains_text, find, law_contains_text, law_replaced, lemma_replaced_after,
    replace, replaced, starts_with, string_of, text_view, trim, trimmed,
};

verus! {

/// A config file that sets at least one of the two directories.
#[derive(Debug)]
pub struct ConfigFile {
    /// The directory that relative values start from.
    pub base: FilePath,
    /// The value of `build.target-dir`.
    pub target_dir: Option<String>,
    /// The value of `build.build-dir`.
    pub build_dir: Option<String>,
}

/// What a `ConfigFile` says.
#[verifier::ext_equal]
pub struct ConfigView {
    pub base: Seq<u8>,
    pub target_dir: Option<Seq<char>>,
    pub build_dir: Option<Seq<char>>,
}

impl View for ConfigFile {
    type V = ConfigView;

    open spec fn view(&self) -> ConfigView {
        ConfigView {
            base: self.base@,
            target_dir: text_view(self.target_dir),
            build_dir: text_view(self.build_dir),
        }
    }
}

/// The view of an optional config file.
pub open spec fn config_view(c: Option<ConfigFile>) -> Option<ConfigView> {
    match c {
        Some(f) => Some(f@),
        None => None,
    }
}

/// The directory that the relative values of a config file start from: the
/// parent of its `.cargo`, or its own directory where that is not `.cargo`.
pub open spec fn config_base(path: Seq<u8>) -> Option<Seq<u8>> {
    match parent(path) {
        None => None,
        Some(d) => if file_name(d) == Some(encode_utf8(".cargo"@)) && parent(d) is Some {
            parent(d)
        } else {
            Some(d)
        },
    }
}

/// What the config file at `path` says, given its text: nothing if it could
/// not be read, sets neither directory or has no base.
pub open spec fn config_of(path: Seq<u8>, text: Option<Seq<char>>) -> Option<ConfigView> {
    match (text, config_base(path)) {
        (Some(t), Some(base)) => {
            let (target_dir, build_dir) = build_dirs(t);
            if target_dir is None && build_dir is None {
                None
            } else {
                Some(ConfigView { base, target_dir, build_dir })
            }
        },
        _ => None,
    }
}

/// The config file at `path`, given the text that was read from it, if any.
pub fn read_config(path: &FilePath, text: Option<&str>) -> (r: Option<ConfigFile>)
    ensures
        config_view(r) == config_of(
            path@,
            match text {
                Some(t) => Some(t@),
                None => None,
            },
        ),
{
    let t = match text {
        None => {
            return None;
        },
        Some(t) => t,
    };
    let (target_dir, build_dir) = parse_build_dirs(t);
    if target_dir.is_none() && build_dir.is_none() {
        return None;
    }
    let dir = match path.parent() {
        None => {
            return None;
        },
        Some(d) => d,
    };
    let in_cargo_dir: bool = match dir.file_name() {
        Some(n) => same_bytes(n, ".cargo".as_bytes()),
        None => false,
    };
    if in_cargo_dir {
        match dir.parent() {
            Some(base) => {
                return Some(ConfigFile { base, target_dir, build_dir });
            },
            None => {},
        }
    }
    Some(ConfigFile { base: dir, target_dir, build_dir })
}

/// The config file in a directory, given which of `config` and `config.toml`
/// are files there. The one without extension wins.
pub fn config_in(dir: &FilePath, bare_is_file: bool, toml_is_file: bool) -> (r: Option<FilePath>)
    ensures
        path_view(r) == if bare_is_file {
            Some(joined(dir@, encode_utf8("config"@)))
        } else if toml_is_file {
            Some(joined(dir@, encode_utf8("config.toml"@)))
        } else {
            None
        },
{
    if bare_is_file {
        Some(dir.join("config"))
    } else if toml_is_file {
        Some(dir.join("config.toml"))
    } else {
        None
    }
}

/// The value of `build.build-dir` with its templates filled in, as a path seen
/// from `base`: nothing if it names a hash or any other template.
pub open spec fn build_dir_path(
    raw: Seq<char>,
    base: Seq<u8>,
    manifest_dir: Seq<u8>,
    cargo_home: Seq<u8>,
) -> Option<Seq<u8>> {
    let with_root = replaced(raw, "{workspace-root}"@, lossy_text(manifest_dir));
    let filled = replaced(with_root, "{cargo-cache-home}"@, lossy_text(cargo_home));
    if contains_text(raw, "{workspace-path-hash}"@) || position(filled, '{') < filled.len() {
        None
    } else {
        Some(absolutized(base, encode_utf8(filled)))
    }
}

/// Fills in the templates of `build.build-dir`.
pub fn expand_build_dir(
    raw: &str,
    base: &FilePath,
    manifest_dir: &FilePath,
    cargo_home: &FilePath,
) -> (r: Option<FilePath>)
    ensures
        path_view(r) == build_dir_path(raw@, base@, manifest_dir@, cargo_home@),
{
    proof {
        reveal_strlit("{workspace-root}");
        reveal_strlit("{cargo-cache-home}");
    }
    let cs = chars_of(raw);
    let hash = chars_of("{workspace-path-hash}");
    if contains(cs.as_slice(), hash.as_slice()) {
        return None;
    }
    let root_mark = chars_of("{workspace-root}");
    let root_text = chars_of(manifest_dir.to_text().as_str());
    let with_root = replace(cs.as_slice(), root_mark.as_slice(), root_text.as_slice());
    let home_mark = chars_of("{cargo-cache-home}");
    let home_text = chars_of(cargo_home.to_text().as_str());
    let filled = replace(with_root.as_slice(), home_mark.as_slice(), home_text.as_slice());
    if find(filled.as_slice(), '{') < filled.len() {
        return None;
    }
    let value = FilePath::new(string_of(filled.as_slice()).as_str());
    Some(base.absolutize(&value))
}

/// Whether the value of an environment variable is set and not blank.
pub open spec fn usable(v: Option<Seq<char>>) -> bool {
    v matches Some(t) && trimmed(t).len() > 0
}

/// Tests whether the value of an environment variable is set and not blank.
pub fn is_usable(v: &Option<String>) -> (b: bool)
    ensures
        b == usable(text_view(*v)),
{
    match v {
        Some(t) => {
            let cs = chars_of(t.as_str());
            trim(cs.as_slice()).len() > 0
        },
        None => false,
    }
}

/// The directory that an environment variable names.
pub open spec fn env_dir_of(v: Option<Seq<char>>) -> Option<Seq<u8>> {
    if usable(v) {
        Some(encode_utf8(v->0))
    } else {
        None
    }
}

/// The directory that an environment variable names, if it is not blank.
pub fn env_dir(v: &Option<String>) -> (r: Option<FilePath>)
    ensures
        path_view(r) == env_dir_of(text_view(*v)),
{
    if is_usable(v) {
        match v {
            Some(t) => Some(FilePath::new(t.as_str())),
            None => None,
        }
    } else {
        None
    }
}

/// Cargo's home directory: `$CARGO_HOME`, else `.cargo` in `$HOME`, else
/// `.cargo` in the current directory.
pub open spec fn cargo_home_of(cargo_home: Option<Seq<char>>, home: Option<Seq<char>>) -> Seq<u8> {
    if usable(cargo_home) {
        encode_utf8(cargo_home->0)
    } else if usable(home) {
        joined(encode_utf8(home->0), encode_utf8(".cargo"@))
    } else {
        encode_utf8(".cargo"@)
    }
}

/// Finds Cargo's home directory from the values of `CARGO_HOME` and `HOME`.
pub fn cargo_home(cargo_var: &Option<String>, home_var: &Option<String>) -> (r: FilePath)
    ensures
        r@ == cargo_home_of(text_view(*cargo_var), text_view(*home_var)),
{
    match env_dir(cargo_var) {
        Some(dir) => dir,
        None => match env_dir(home_var) {
            Some(dir) => dir.join(".cargo"),
            None => FilePath::new(".cargo"),
        },
    }
}

/// The environment variables that Cargo reads its directories from.
#[derive(Debug)]
pub struct Environment {
    /// `CARGO_HOME`
    pub cargo_home: Option<String>,
    /// `HOME`
    pub home: Option<String>,
    /// `CARGO_BUILD_TARGET_DIR`
    pub build_target_dir: Option<String>,
    /// `CARGO_TARGET_DIR`
    pub target_dir: Option<String>,
    /// `CARGO_BUILD_BUILD_DIR`
    pub build_build_dir: Option<String>,
}

/// Finds the output directories of projects, from the environment and from
/// the config files that have been read so far.
#[derive(Debug)]
pub struct Resolver {
    home: Option<ConfigFile>,
    cache: Vec<(FilePath, Option<ConfigFile>)>,
    env_target: Option<FilePath>,
    env_build: Option<FilePath>,
    cargo_home: FilePath,
}

/// What a `Resolver` knows: the config in Cargo's home, the config per
/// directory, the directories that the environment sets, and Cargo's home.
#[verifier::ext_equal]
pub struct ResolverView {
    pub home: Option<ConfigView>,
    pub cache: Seq<(Seq<u8>, Option<ConfigView>)>,
    pub env_target: Option<Seq<u8>>,
    pub env_build: Option<Seq<u8>>,
    pub cargo_home: Seq<u8>,
}

/// The view of the config per directory.
pub open spec fn cache_view(c: Seq<(FilePath, Option<ConfigFile>)>) -> Seq<
    (Seq<u8>, Option<ConfigView>),
> {
    c.map_values(|e: (FilePath, Option<ConfigFile>)| (e.0@, config_view(e.1)))
}

impl View for Resolver {
    type V = ResolverView;

    closed spec fn view(&self) -> ResolverView {
        ResolverView {
            home: config_view(self.home),
            cache: cache_view(self.cache@),
            env_target: path_view(self.env_target),
            env_build: path_view(self.env_build),
            cargo_home: self.cargo_home@,
        }
    }
}

/// The index of the first item of `cache` for the directory `dir`, or the
/// length of `cache` if it holds none.
pub open spec fn cache_index(cache: Seq<(Seq<u8>, Option<ConfigView>)>, dir: Seq<u8>) -> int
    decreases cache.len(),
{
    if cache.len() == 0 || same_path(cache[0].0, dir) {
        0
    } else {
        1 + cache_index(cache.skip(1), dir)
    }
}

/// Whether the config for a directory has been read.
pub open spec fn known(cache: Seq<(Seq<u8>, Option<ConfigView>)>, dir: Seq<u8>) -> bool {
    cache_index(cache, dir) < cache.len()
}

/// The config for a directory, as far as it has been read.
pub open spec fn config_for(cache: Seq<(Seq<u8>, Option<ConfigView>)>, dir: Seq<u8>) -> Option<
    ConfigView,
> {
    if known(cache, dir) {
        cache[cache_index(cache, dir)].1
    } else {
        None
    }
}

/// Whether the configs for all of the directories have been read.
pub open spec fn all_known(cache: Seq<(Seq<u8>, Option<ConfigView>)>, dirs: Seq<Seq<u8>>) -> bool {
    forall|i: int| 0 <= i < dirs.len() ==> known(cache, #[trigger] dirs[i])
}

/// Whether no directory is listed twice.
pub open spec fn distinct(cache: Seq<(Seq<u8>, Option<ConfigView>)>) -> bool {
    forall|i: int, j: int|
        0 <= i < j < cache.len() ==> !same_path(#[trigger] cache[i].0, #[trigger] cache[j].0)
}

/// What is known once a config was read for a directory. The first one counts.
pub open spec fn stored(
    cache: Seq<(Seq<u8>, Option<ConfigView>)>,
    dir: Seq<u8>,
    config: Option<ConfigView>,
) -> Seq<(Seq<u8>, Option<ConfigView>)> {
    if known(cache, dir) {
        cache
    } else {
        cache.push((dir, config))
    }
}

/// What is known once configs were read for several directories.
pub open spec fn stored_all(
    cache: Seq<(Seq<u8>, Option<ConfigView>)>,
    items: Seq<(Seq<u8>, Option<ConfigView>)>,
) -> Seq<(Seq<u8>, Option<ConfigView>)>
    decreases items.len(),
{
    if items.len() == 0 {
        cache
    } else {
        stored(stored_all(cache, items.drop_last()), items.last().0, items.last().1)
    }
}

/// What `cache_index` says of the items around it.
proof fn lemma_cache_index(cache: Seq<(Seq<u8>, Option<ConfigView>)>, dir: Seq<u8>)
    ensures
        0 <= cache_index(cache, dir) <= cache.len(),
        forall|i: int| 0 <= i < cache_index(cache, dir) ==> !same_path(#[trigger] cache[i].0, dir),
        known(cache, dir) ==> same_path(cache[cache_index(cache, dir)].0, dir),
    decreases cache.len(),
{
    if cache.len() > 0 && !same_path(cache[0].0, dir) {
        lemma_cache_index(cache.skip(1), dir);
        assert forall|i: int| 0 <= i < cache_index(cache, dir) implies !same_path(
            #[trigger] cache[i].0,
            dir,
        ) by {
            if i > 0 {
                assert(cache.skip(1)[i - 1] == cache[i]);
            }
        }
    }
}

/// `cache_index` is the only index that fits that description.
proof fn lemma_cache_index_is(cache: Seq<(Seq<u8>, Option<ConfigView>)>, dir: Seq<u8>, k: int)
    requires
        0 <= k <= cache.len(),
        forall|i: int| 0 <= i < k ==> !same_path(#[trigger] cache[i].0, dir),
        k < cache.len() ==> same_path(cache[k].0, dir),
    ensures
        cache_index(cache, dir) == k,
{
    lemma_cache_index(cache, dir);
    let p = cache_index(cache, dir);
    if p < k {
        assert(!same_path(cache[p].0, dir));
    } else if k < p {
        assert(!same_path(cache[k].0, dir));
    }
}

/// The last of the configs that sets `build.target-dir`, as its value and base.
pub open spec fn last_target(configs: Seq<Option<ConfigView>>) -> Option<(Seq<char>, Seq<u8>)>
    decreases configs.len(),
{
    if configs.len() == 0 {
        None
    } else {
        match configs.last() {
            Some(ConfigView { base, target_dir: Some(t), .. }) => Some((t, base)),
            _ => last_target(configs.drop_last()),
        }
    }
}

/// The last of the configs that sets `build.build-dir`, as its value and base.
pub open spec fn last_build(configs: Seq<Option<ConfigView>>) -> Option<(Seq<char>, Seq<u8>)>
    decreases configs.len(),
{
    if configs.len() == 0 {
        None
    } else {
        match configs.last() {
            Some(ConfigView { base, build_dir: Some(t), .. }) => Some((t, base)),
            _ => last_build(configs.drop_last()),
        }
    }
}

/// Whether a directory is among the discovered ones.
pub open spec fn listed(out: Seq<DiscoveredView>, dir: Seq<u8>) -> bool {
    exists|i: int| 0 <= i < out.len() && same_path(#[trigger] out[i].target_dir, dir)
}

/// The list with one more output directory of a project, unless it is listed
/// already or there is none.
pub open spec fn with_dir(
    out: Seq<DiscoveredView>,
    project_path: Seq<u8>,
    dir: Option<Seq<u8>>,
    kind: OutputKind,
) -> Seq<DiscoveredView> {
    match dir {
        Some(target_dir) if !listed(out, target_dir) => out.push(
            DiscoveredView { project_path, target_dir, kind },
        ),
        _ => out,
    }
}

impl ResolverView {
    /// The configs that bear on a project, from the weakest to the strongest:
    /// Cargo's home, then the project's ancestors from the root directory down.
    /// A project that has its default output directory skips its ancestors.
    pub open spec fn configs(self, manifest_dir: Seq<u8>, has_default: bool) -> Seq<
        Option<ConfigView>,
    > {
        let above = ancestors(manifest_dir).reverse();
        if has_default {
            seq![self.home]
        } else {
            seq![self.home] + above.map_values(|d: Seq<u8>| config_for(self.cache, d))
        }
    }

    /// The configured target directory of a project.
    pub open spec fn target_path(self, manifest_dir: Seq<u8>, has_default: bool) -> Option<
        Seq<u8>,
    > {
        match (self.env_target, last_target(self.configs(manifest_dir, has_default))) {
            (Some(dir), _) => Some(dir),
            (None, Some((value, base))) => Some(absolutized(base, encode_utf8(value))),
            (None, None) => None,
        }
    }

    /// The configured build directory of a project.
    pub open spec fn build_path(self, manifest_dir: Seq<u8>, has_default: bool) -> Option<
        Seq<u8>,
    > {
        match (self.env_build, last_build(self.configs(manifest_dir, has_default))) {
            (Some(dir), _) => Some(dir),
            (None, Some((value, base))) => build_dir_path(
                value,
                base,
                manifest_dir,
                self.cargo_home,
            ),
            (None, None) => None,
        }
    }

    /// The output directories of a project: the default one, then the
    /// configured target directory, then the configured build directory, each
    /// listed once.
    pub open spec fn resolve(self, manifest_dir: Seq<u8>, has_default: bool) -> Seq<
        DiscoveredView,
    > {
        let base = seq![
            DiscoveredView {
                project_path: manifest_dir,
                target_dir: default_target(manifest_dir),
                kind: OutputKind::Target,
            },
        ];
        let with_target = with_dir(
            base,
            manifest_dir,
            self.target_path(manifest_dir, has_default),
            OutputKind::Target,
        );
        with_dir(
            with_target,
            manifest_dir,
            self.build_path(manifest_dir, has_default),
            OutputKind::Build,
        )
    }
}

/// Adds one more output directory of a project, unless it is listed already.
fn push_dir(
    out: &mut Vec<DiscoveredEntry>,
    project_path: &FilePath,
    dir: Option<FilePath>,
    kind: OutputKind,
)
    ensures
        discovered_view(final(out)@) == with_dir(
            discovered_view(old(out)@),
            project_path@,
            path_view(dir),
            kind,
        ),
{
    let ghost before = discovered_view(out@);
    let target_dir = match dir {
        Some(d) => d,
        None => {
            return;
        },
    };
    for i in 0..out.len()
        invariant
            before == discovered_view(out@),
            before == discovered_view(old(out)@),
            path_view(dir) == Some(target_dir@),
            forall|j: int|
                0 <= j < i ==> !same_path(#[trigger] before[j].target_dir, target_dir@),
    {
        assert(before[i as int] == out@[i as int]@);
        if out[i].target_dir.same(&target_dir) {
            assert(same_path(before[i as int].target_dir, target_dir@));
            assert(listed(before, target_dir@));
            return;
        }
    }
    let ghost added = DiscoveredView { project_path: project_path@, target_dir: target_dir@, kind };
    out.push(DiscoveredEntry::new(project_path.clone(), target_dir, kind));
    assert(discovered_view(out@) =~= before.push(added));
}

/// The list with those of the candidates that exist, each directory once.
pub open spec fn with_existing(
    found: Seq<DiscoveredView>,
    candidates: Seq<DiscoveredView>,
    present: Seq<bool>,
) -> Seq<DiscoveredView>
    decreases candidates.len(),
{
    if candidates.len() == 0 || present.len() < candidates.len() {
        found
    } else {
        let d = candidates.last();
        with_dir(
            with_existing(found, candidates.drop_last(), present),
            d.project_path,
            if present[candidates.len() - 1] {
                Some(d.target_dir)
            } else {
                None
            },
            d.kind,
        )
    }
}

/// Adds those candidates that exist on disk, unless their directory is listed
/// already: projects may share one.
pub fn keep_existing(
    found: &mut Vec<DiscoveredEntry>,
    candidates: &Vec<DiscoveredEntry>,
    present: &Vec<bool>,
)
    requires
        present@.len() == candidates@.len(),
    ensures
        discovered_view(final(found)@) == with_existing(
            discovered_view(old(found)@),
            discovered_view(candidates@),
            present@,
        ),
{
    let ghost start = discovered_view(found@);
    let ghost all = discovered_view(candidates@);
    assert(all.take(0) =~= Seq::<DiscoveredView>::empty());
    for i in 0..candidates.len()
        invariant
            present@.len() == candidates@.len(),
            all == discovered_view(candidates@),
            discovered_view(found@) == with_existing(start, all.take(i as int), present@),
    {
        assert(all.take(i + 1).drop_last() =~= all.take(i as int));
        assert(all.take(i + 1).last() == candidates@[i as int]@);
        let d = &candidates[i];
        let dir = if present[i] {
            Some(d.target_dir.clone())
        } else {
            None
        };
        push_dir(found, &d.project_path, dir, d.kind);
    }
    assert(all.take(all.len() as int) =~= all);
}

impl Resolver {
    /// A resolver that has read no config file but the one in Cargo's home,
    /// if there is one. Relative directories of the environment start from
    /// `cwd`.
    pub fn new(env: &Environment, home: Option<ConfigFile>, cwd: &FilePath) -> (r: Resolver)
        ensures
            r@.home == config_view(home),
            r@.cache == Seq::<(Seq<u8>, Option<ConfigView>)>::empty(),
            distinct(r@.cache),
            r@.cargo_home == cargo_home_of(text_view(env.cargo_home), text_view(env.home)),
            r@.env_target == match (
                env_dir_of(text_view(env.build_target_dir)),
                env_dir_of(text_view(env.target_dir)),
            ) {
                (Some(d), _) => Some(absolutized(cwd@, d)),
                (None, Some(d)) => Some(absolutized(cwd@, d)),
                (None, None) => None,
            },
            r@.env_build == match env_dir_of(text_view(env.build_build_dir)) {
                Some(d) => Some(absolutized(cwd@, d)),
                None => None,
            },
    {
        let env_target = match env_dir(&env.build_target_dir) {
            Some(d) => Some(cwd.absolutize(&d)),
            None => match env_dir(&env.target_dir) {
                Some(d) => Some(cwd.absolutize(&d)),
                None => None,
            },
        };
        let env_build = match env_dir(&env.build_build_dir) {
            Some(d) => Some(cwd.absolutize(&d)),
            None => None,
        };
        let r = Resolver {
            home,
            cache: Vec::new(),
            env_target,
            env_build,
            cargo_home: cargo_home(&env.cargo_home, &env.home),
        };
        assert(r@.cache =~= Seq::<(Seq<u8>, Option<ConfigView>)>::empty());
        r
    }

    /// Finds the first item for a directory.
    fn lookup(&self, dir: &FilePath) -> (k: usize)
        ensures
            k == cache_index(self@.cache, dir@),
            k <= self.cache@.len(),
    {
        let mut k: usize = 0;
        while k < self.cache.len() && !self.cache[k].0.same(dir)
            invariant
                k <= self.cache@.len(),
                forall|i: int|
                    0 <= i < k ==> !same_path(#[trigger] self@.cache[i].0, dir@),
            decreases self.cache@.len() - k,
        {
            assert(self@.cache[k as int].0 == self.cache@[k as int].0@);
            k += 1;
        }
        proof {
            lemma_cache_index_is(self@.cache, dir@, k as int);
        }
        k
    }

    /// The directories above a project, itself included, whose configs have
    /// not been read, from the root directory down.
    pub fn missing(&self, manifest_dir: &FilePath) -> (r: Vec<FilePath>)
        ensures
            paths(r@) == ancestors(manifest_dir@).reverse().filter(
                |d: Seq<u8>| !known(self@.cache, d),
            ),
    {
        let chain = manifest_dir.ancestors();
        let ghost up = ancestors(manifest_dir@);
        let ghost down = up.reverse();
        let ghost unread = |d: Seq<u8>| !known(self@.cache, d);
        let n: usize = chain.len();
        let mut r: Vec<FilePath> = Vec::new();
        assert(down.take(0).filter(unread) =~= Seq::<Seq<u8>>::empty()) by {
            reveal(Seq::filter);
        }
        for i in 0..n
            invariant
                n == chain@.len(),
                up == paths(chain@),
                down == up.reverse(),
                unread == (|d: Seq<u8>| !known(self@.cache, d)),
                paths(r@) == down.take(i as int).filter(unread),
        {
            let dir = &chain[n - 1 - i];
            assert(dir@ == down[i as int]);
            let ghost before = r@;
            assert(down.take(i + 1).drop_last() == down.take(i as int));
            assert(down.take(i + 1).last() == dir@);
            if self.lookup(dir) == self.cache.len() {
                r.push(dir.clone());
                assert(paths(r@) =~= paths(before).push(dir@));
            }
            assert(paths(r@) == down.take(i + 1).filter(unread)) by {
                reveal(Seq::filter);
            }
        }
        assert(down.take(n as int) == down);
        r
    }

    /// Keeps what was read for a directory, unless something is kept already.
    pub fn store(&mut self, dir: FilePath, config: Option<ConfigFile>)
        ensures
            final(self)@ == (ResolverView {
                cache: stored(old(self)@.cache, dir@, config_view(config)),
                ..old(self)@
            }),
            distinct(old(self)@.cache) ==> distinct(final(self)@.cache),
    {
        let ghost before = self@;
        proof {
            lemma_cache_index(before.cache, dir@);
        }
        if self.lookup(&dir) == self.cache.len() {
            let ghost item = (dir@, config_view(config));
            self.cache.push((dir, config));
            assert(self@.cache =~= before.cache.push(item));
            assert(self@ =~= ResolverView { cache: before.cache.push(item), ..before });
        }
    }

    /// The output directories of a project. `has_default` says whether its
    /// default output directory is there; if it is not, the configs of all
    /// the project's ancestors must have been read.
    pub fn resolve(&self, manifest_dir: &FilePath, has_default: bool) -> (r: Vec<DiscoveredEntry>)
        requires
            !has_default ==> all_known(self@.cache, ancestors(manifest_dir@)),
        ensures
            discovered_view(r@) == self@.resolve(manifest_dir@, has_default),
    {
        let ghost configs = self@.configs(manifest_dir@, has_default);
        let mut target: Option<(&String, &FilePath)> = None;
        let mut build: Option<(&String, &FilePath)> = None;
        if let Some(home) = &self.home {
            if let Some(t) = &home.target_dir {
                target = Some((t, &home.base));
            }
            if let Some(t) = &home.build_dir {
                build = Some((t, &home.base));
            }
        }
        assert(configs.take(1) =~= seq![self@.home]);
        assert(configs.take(1).drop_last() =~= Seq::<Option<ConfigView>>::empty());
        assert(value_view(target) == last_target(configs.take(1))) by {
            reveal_with_fuel(last_target, 2);
        }
        assert(value_view(build) == last_build(configs.take(1))) by {
            reveal_with_fuel(last_build, 2);
        }
        if !has_default {
            let chain = manifest_dir.ancestors();
            let ghost up = ancestors(manifest_dir@);
            let ghost down = up.reverse();
            let n: usize = chain.len();
            for i in 0..n
                invariant
                    n == chain@.len(),
                    up == paths(chain@),
                    down == up.reverse(),
                    up == ancestors(manifest_dir@),
                    configs == self@.configs(manifest_dir@, false),
                    value_view(target) == last_target(configs.take(i + 1)),
                    value_view(build) == last_build(configs.take(i + 1)),
            {
                let dir = &chain[n - 1 - i];
                assert(dir@ == down[i as int]);
                assert(configs.take(i + 2).drop_last() =~= configs.take(i + 1));
                assert(configs.take(i + 2).last() == config_for(self@.cache, dir@));
                let k: usize = self.lookup(dir);
                if k < self.cache.len() {
                    assert(self@.cache[k as int].1 == config_view(self.cache@[k as int].1));
                    if let Some(config) = &self.cache[k].1 {
                        if let Some(t) = &config.target_dir {
                            target = Some((t, &config.base));
                        }
                        if let Some(t) = &config.build_dir {
                            build = Some((t, &config.base));
                        }
                    }
                }
            }
            assert(configs.len() == n + 1);
        }
        assert(configs.take(configs.len() as int) =~= configs);
        let target_path = match &self.env_target {
            Some(dir) => Some(dir.clone()),
            None => match target {
                Some((value, base)) => {
                    Some(base.absolutize(&FilePath::new(value.as_str())))
                },
                None => None,
            },
        };
        let build_path = match &self.env_build {
            Some(dir) => Some(dir.clone()),
            None => match build {
                Some((value, base)) => {
                    expand_build_dir(value.as_str(), base, manifest_dir, &self.cargo_home)
                },
                None => None,
            },
        };
        let mut out: Vec<DiscoveredEntry> = Vec::new();
        out.push(DiscoveredEntry::from(manifest_dir.clone()));
        assert(discovered_view(out@) =~= seq![
            DiscoveredView {
                project_path: manifest_dir@,
                target_dir: default_target(manifest_dir@),
                kind: OutputKind::Target,
            },
        ]);
        push_dir(&mut out, manifest_dir, target_path, OutputKind::Target);
        push_dir(&mut out, manifest_dir, build_path, OutputKind::Build);
        out
    }

    /// The directories that `resolve` finds for `dir`, without the rest.
    pub fn outer_dirs(&self, dir: &FilePath, has_default: bool) -> (r: Vec<FilePath>)
        requires
            !has_default ==> all_known(self@.cache, ancestors(dir@)),
        ensures
            paths(r@) == self@.resolve(dir@, has_default).map_values(
                |d: DiscoveredView| d.target_dir,
            ),
    {
        let found = self.resolve(dir, has_default);
        let ghost all = self@.resolve(dir@, has_default);
        let mut r: Vec<FilePath> = Vec::new();
        for i in 0..found.len()
            invariant
                all == discovered_view(found@),
                paths(r@) == all.take(i as int).map_values(|d: DiscoveredView| d.target_dir),
        {
            let ghost before = r@;
            r.push(found[i].target_dir.clone());
            assert(paths(r@) =~= paths(before).push(all[i as int].target_dir));
            assert(all.take(i + 1) =~= all.take(i as int).push(all[i as int]));
            assert(paths(r@) =~= all.take(i + 1).map_values(|d: DiscoveredView| d.target_dir));
        }
        assert(all.take(all.len() as int) =~= all);
        r
    }

    /// How many of the configs that were read set something.
    pub fn cached_files(&self) -> (n: usize)
        ensures
            n == self@.cache.filter(|e: (Seq<u8>, Option<ConfigView>)| e.1 is Some).len(),
    {
        let ghost set = |e: (Seq<u8>, Option<ConfigView>)| e.1 is Some;
        let mut n: usize = 0;
        assert(self@.cache.take(0).filter(set).len() == 0) by {
            reveal(Seq::filter);
        }
        for i in 0..self.cache.len()
            invariant
                set == (|e: (Seq<u8>, Option<ConfigView>)| e.1 is Some),
                n <= i,
                self@.cache.len() == self.cache@.len(),
                n == self@.cache.take(i as int).filter(set).len(),
        {
            assert(self@.cache.take(i + 1).drop_last() =~= self@.cache.take(i as int));
            assert(self@.cache.take(i + 1).last() == self@.cache[i as int]);
            assert(self@.cache[i as int].1 == config_view(self.cache@[i as int].1));
            if self.cache[i].1.is_some() {
                n += 1;
            }
            assert(n == self@.cache.take(i + 1).filter(set).len()) by {
                reveal(Seq::filter);
            }
        }
        assert(self@.cache.take(self@.cache.len() as int) =~= self@.cache);
        n
    }
}

/// The view of a config value and its base.
spec fn value_view(v: Option<(&String, &FilePath)>) -> Option<(Seq<char>, Seq<u8>)> {
    match v {
        Some((t, base)) => Some((t@, base@)),
        None => None,
    }
}

/// Law: the default output directory comes first, at most one target and one
/// build directory follow, all belong to the project, and no directory is
/// listed twice.
pub proof fn law_resolve_lists_once(v: ResolverView, manifest_dir: Seq<u8>, has_default: bool)
    ensures
        ({
            let out = v.resolve(manifest_dir, has_default);
            &&& 1 <= out.len() <= 3
            &&& out[0].target_dir == default_target(manifest_dir)
            &&& forall|i: int| 0 <= i < out.len() ==> (#[trigger] out[i]).project_path == manifest_dir
            &&& forall|i: int, j: int|
                0 <= i < j < out.len() ==> !same_path(
                    #[trigger] out[i].target_dir,
                    #[trigger] out[j].target_dir,
                )
        }),
{
    let base = seq![
        DiscoveredView {
            project_path: manifest_dir,
            target_dir: default_target(manifest_dir),
            kind: OutputKind::Target,
        },
    ];
    let target = v.target_path(manifest_dir, has_default);
    let build = v.build_path(manifest_dir, has_default);
    lemma_with_dir(base, manifest_dir, target, OutputKind::Target);
    let with_target = with_dir(base, manifest_dir, target, OutputKind::Target);
    lemma_with_dir(with_target, manifest_dir, build, OutputKind::Build);
}

/// Adding a directory keeps a list free of repetitions.
proof fn lemma_with_dir(
    out: Seq<DiscoveredView>,
    project_path: Seq<u8>,
    dir: Option<Seq<u8>>,
    kind: OutputKind,
)
    requires
        forall|i: int, j: int|
            0 <= i < j < out.len() ==> !same_path(
                #[trigger] out[i].target_dir,
                #[trigger] out[j].target_dir,
            ),
    ensures
        forall|i: int, j: int|
            0 <= i < j < with_dir(out, project_path, dir, kind).len() ==> !same_path(
                #[trigger] with_dir(out, project_path, dir, kind)[i].target_dir,
                #[trigger] with_dir(out, project_path, dir, kind)[j].target_dir,
            ),
{
    let r = with_dir(out, project_path, dir, kind);
    assert forall|i: int, j: int| 0 <= i < j < r.len() implies !same_path(
        #[trigger] r[i].target_dir,
        #[trigger] r[j].target_dir,
    ) by {
        assert(r[i] == out[i]);
        if j < out.len() {
            assert(r[j] == out[j]);
        } else {
            assert(!listed(out, r[j].target_dir));
            assert(!same_path(out[i].target_dir, r[j].target_dir));
        }
    }
}

/// Law: what is found lists no directory twice, however many projects share
/// it, and no directory that does not exist is added.
pub proof fn law_existing_listed_once(
    found: Seq<DiscoveredView>,
    candidates: Seq<DiscoveredView>,
    present: Seq<bool>,
)
    requires
        forall|i: int, j: int|
            0 <= i < j < found.len() ==> !same_path(
                #[trigger] found[i].target_dir,
                #[trigger] found[j].target_dir,
            ),
    ensures
        ({
            let out = with_existing(found, candidates, present);
            &&& forall|i: int, j: int|
                0 <= i < j < out.len() ==> !same_path(
                    #[trigger] out[i].target_dir,
                    #[trigger] out[j].target_dir,
                )
            &&& forall|i: int|
                0 <= i < out.len() ==> found.contains(#[trigger] out[i]) || exists|k: int|
                    0 <= k < candidates.len() && present[k] && #[trigger] candidates[k] == out[i]
        }),
    decreases candidates.len(),
{
    let out = with_existing(found, candidates, present);
    if candidates.len() == 0 || present.len() < candidates.len() {
        assert forall|i: int| 0 <= i < out.len() implies found.contains(#[trigger] out[i]) by {
            assert(found[i] == out[i]);
        }
    } else {
        let rest = candidates.drop_last();
        let before = with_existing(found, rest, present);
        let d = candidates.last();
        let last = candidates.len() - 1;
        let dir = if present[last] {
            Some(d.target_dir)
        } else {
            None
        };
        law_existing_listed_once(found, rest, present);
        lemma_with_dir(before, d.project_path, dir, d.kind);
        assert forall|i: int| 0 <= i < out.len() implies found.contains(#[trigger] out[i])
            || exists|k: int|
            0 <= k < candidates.len() && present[k] && #[trigger] candidates[k] == out[i] by {
            if i < before.len() {
                assert(out[i] == before[i]);
                if !found.contains(before[i]) {
                    let k = choose|k: int|
                        0 <= k < rest.len() && present[k] && #[trigger] rest[k] == before[i];
                    assert(candidates[k] == rest[k]);
                }
            } else {
                assert(candidates[last] == out[i]);
            }
        }
    }
}

/// Law: a project with its default output directory does not depend on the
/// configs of its ancestors.
pub proof fn law_default_skips_ancestors(v: ResolverView, w: ResolverView, manifest_dir: Seq<u8>)
    requires
        w == (ResolverView { cache: w.cache, ..v }),
    ensures
        v.resolve(manifest_dir, true) == w.resolve(manifest_dir, true),
{
    assert(v.configs(manifest_dir, true) == w.configs(manifest_dir, true));
}

/// Law: what the environment sets is listed whatever the config files say.
pub proof fn law_environment_wins(v: ResolverView, manifest_dir: Seq<u8>, has_default: bool)
    ensures
        v.env_target matches Some(dir) ==> v.target_path(manifest_dir, has_default) == Some(dir)
            && listed(v.resolve(manifest_dir, has_default), dir),
        v.env_build matches Some(dir) ==> v.build_path(manifest_dir, has_default) == Some(dir)
            && listed(v.resolve(manifest_dir, has_default), dir),
{
    let base = seq![
        DiscoveredView {
            project_path: manifest_dir,
            target_dir: default_target(manifest_dir),
            kind: OutputKind::Target,
        },
    ];
    let target = v.target_path(manifest_dir, has_default);
    let build = v.build_path(manifest_dir, has_default);
    let with_target = with_dir(base, manifest_dir, target, OutputKind::Target);
    let out = with_dir(with_target, manifest_dir, build, OutputKind::Build);
    if let Some(dir) = v.env_target {
        lemma_with_dir_lists(base, manifest_dir, target, OutputKind::Target, dir);
        lemma_with_dir_lists(with_target, manifest_dir, build, OutputKind::Build, dir);
    }
    if let Some(dir) = v.env_build {
        lemma_with_dir_lists(with_target, manifest_dir, build, OutputKind::Build, dir);
    }
}

/// After a directory is added it is listed, and so is what was before.
proof fn lemma_with_dir_lists(
    out: Seq<DiscoveredView>,
    project_path: Seq<u8>,
    dir: Option<Seq<u8>>,
    kind: OutputKind,
    d: Seq<u8>,
)
    requires
        dir == Some(d) || listed(out, d),
    ensures
        listed(with_dir(out, project_path, dir, kind), d),
{
    let r = with_dir(out, project_path, dir, kind);
    if listed(out, d) {
        let i = choose|i: int| 0 <= i < out.len() && same_path(#[trigger] out[i].target_dir, d);
        assert(r[i] == out[i]);
        assert(same_path(r[i].target_dir, d));
    } else {
        assert(same_path(r[out.len() as int].target_dir, d));
    }
}

/// The last of the configs that sets a target directory is the one that counts.
proof fn lemma_last_target(configs: Seq<Option<ConfigView>>, k: int)
    requires
        0 <= k < configs.len(),
        configs[k] matches Some(c) && c.target_dir is Some,
        forall|i: int|
            k < i < configs.len() ==> !(#[trigger] configs[i] matches Some(c)
                && c.target_dir is Some),
    ensures
        last_target(configs) == Some((configs[k]->0.target_dir->0, configs[k]->0.base)),
    decreases configs.len(),
{
    if k < configs.len() - 1 {
        assert(configs.last() == configs[configs.len() - 1]);
        let d = configs.drop_last();
        assert(d[k] == configs[k]);
        assert forall|i: int| k < i < d.len() implies !(#[trigger] d[i] matches Some(c)
            && c.target_dir is Some) by {
            assert(d[i] == configs[i]);
        }
        lemma_last_target(d, k);
    }
}

/// Law: of the configs above a project, the deepest one that sets a target
/// directory decides. `k` counts from the project itself upwards.
pub proof fn law_deepest_config_wins(v: ResolverView, manifest_dir: Seq<u8>, k: int)
    requires
        v.env_target is None,
        0 <= k < ancestors(manifest_dir).len(),
        config_for(v.cache, ancestors(manifest_dir)[k]) matches Some(c) && c.target_dir is Some,
        forall|i: int|
            0 <= i < k ==> !(config_for(v.cache, #[trigger] ancestors(manifest_dir)[i]) matches Some(
                c,
            ) && c.target_dir is Some),
    ensures
        ({
            let c = config_for(v.cache, ancestors(manifest_dir)[k])->0;
            v.target_path(manifest_dir, false) == Some(
                absolutized(c.base, encode_utf8(c.target_dir->0)),
            )
        }),
{
    let up = ancestors(manifest_dir);
    let configs = v.configs(manifest_dir, false);
    let n = up.len();
    assert(configs.len() == n + 1);
    assert(configs[n - k] == config_for(v.cache, up[k]));
    assert forall|i: int| n - k < i < configs.len() implies !(#[trigger] configs[i] matches Some(c)
        && c.target_dir is Some) by {
        assert(configs[i] == config_for(v.cache, up[n - i]));
    }
    lemma_last_target(configs, n - k);
}

/// The last of the configs that sets a build directory is the one that counts.
proof fn lemma_last_build(configs: Seq<Option<ConfigView>>, k: int)
    requires
        0 <= k < configs.len(),
        configs[k] matches Some(c) && c.build_dir is Some,
        forall|i: int|
            k < i < configs.len() ==> !(#[trigger] configs[i] matches Some(c)
                && c.build_dir is Some),
    ensures
        last_build(configs) == Some((configs[k]->0.build_dir->0, configs[k]->0.base)),
    decreases configs.len(),
{
    if k < configs.len() - 1 {
        assert(configs.last() == configs[configs.len() - 1]);
        let d = configs.drop_last();
        assert(d[k] == configs[k]);
        assert forall|i: int| k < i < d.len() implies !(#[trigger] d[i] matches Some(c)
            && c.build_dir is Some) by {
            assert(d[i] == configs[i]);
        }
        lemma_last_build(d, k);
    }
}

/// Law: of the configs above a project, the deepest one that sets a build
/// directory decides. `k` counts from the project itself upwards.
pub proof fn law_deepest_build_config_wins(v: ResolverView, manifest_dir: Seq<u8>, k: int)
    requires
        v.env_build is None,
        0 <= k < ancestors(manifest_dir).len(),
        config_for(v.cache, ancestors(manifest_dir)[k]) matches Some(c) && c.build_dir is Some,
        forall|i: int|
            0 <= i < k ==> !(config_for(v.cache, #[trigger] ancestors(manifest_dir)[i]) matches Some(
                c,
            ) && c.build_dir is Some),
    ensures
        ({
            let c = config_for(v.cache, ancestors(manifest_dir)[k])->0;
            v.build_path(manifest_dir, false) == build_dir_path(
                c.build_dir->0,
                c.base,
                manifest_dir,
                v.cargo_home,
            )
        }),
{
    let up = ancestors(manifest_dir);
    let configs = v.configs(manifest_dir, false);
    let n = up.len();
    assert(configs.len() == n + 1);
    assert(configs[n - k] == config_for(v.cache, up[k]));
    assert forall|i: int| n - k < i < configs.len() implies !(#[trigger] configs[i] matches Some(c)
        && c.build_dir is Some) by {
        assert(configs[i] == config_for(v.cache, up[n - i]));
    }
    lemma_last_build(configs, n - k);
}

/// Law: what is stored for a directory is found again, and nothing else
/// changes: directories known before keep their configs, and no other becomes
/// known.
pub proof fn law_stored_once(
    cache: Seq<(Seq<u8>, Option<ConfigView>)>,
    dir: Seq<u8>,
    config: Option<ConfigView>,
    other: Seq<u8>,
)
    requires
        !known(cache, dir),
    ensures
        config_for(cache.push((dir, config)), dir) == config,
        known(cache.push((dir, config)), other) <==> known(cache, other) || same_path(dir, other),
        known(cache, other) ==> config_for(cache.push((dir, config)), other) == config_for(
            cache,
            other,
        ),
{
    let after = cache.push((dir, config));
    lemma_cache_index(cache, dir);
    lemma_cache_index(cache, other);
    assert forall|i: int| 0 <= i < cache.len() implies !same_path(#[trigger] after[i].0, dir) by {
        assert(after[i] == cache[i]);
    }
    lemma_cache_index_is(after, dir, cache.len() as int);
    if known(cache, other) {
        let k = cache_index(cache, other);
        assert forall|i: int| 0 <= i < k implies !same_path(#[trigger] after[i].0, other) by {
            assert(after[i] == cache[i]);
        }
        lemma_cache_index_is(after, other, k);
    } else {
        assert forall|i: int| 0 <= i < cache.len() implies !same_path(
            #[trigger] after[i].0,
            other,
        ) by {
            assert(after[i] == cache[i]);
        }
        if same_path(dir, other) {
            lemma_cache_index_is(after, other, cache.len() as int);
        } else {
            lemma_cache_index_is(after, other, after.len() as int);
        }
    }
}

/// After a config was read for a directory, that directory is known, and so is
/// what was before.
proof fn lemma_stored_known(
    cache: Seq<(Seq<u8>, Option<ConfigView>)>,
    dir: Seq<u8>,
    config: Option<ConfigView>,
    other: Seq<u8>,
)
    requires
        known(cache, other) || same_path(dir, other),
    ensures
        known(stored(cache, dir, config), other),
{
    if known(cache, dir) {
        lemma_cache_index(cache, dir);
        lemma_cache_index(cache, other);
        if !known(cache, other) {
            let k = cache_index(cache, dir);
            assert(same_path(cache[k].0, other));
            assert(!same_path(cache[k].0, other));
        }
    } else {
        law_stored_once(cache, dir, config, other);
    }
}

/// After configs were read for several directories, those are known.
proof fn lemma_stored_all_known(
    cache: Seq<(Seq<u8>, Option<ConfigView>)>,
    items: Seq<(Seq<u8>, Option<ConfigView>)>,
    dir: Seq<u8>,
)
    requires
        known(cache, dir) || exists|i: int|
            0 <= i < items.len() && same_path(#[trigger] items[i].0, dir),
    ensures
        known(stored_all(cache, items), dir),
    decreases items.len(),
{
    if items.len() > 0 {
        let d = items.drop_last();
        let before = stored_all(cache, d);
        if !same_path(items.last().0, dir) {
            if !known(cache, dir) {
                let i = choose|i: int|
                    0 <= i < items.len() && same_path(#[trigger] items[i].0, dir);
                assert(items.last() == items[items.len() - 1]);
                assert(d[i] == items[i]);
                assert(same_path(d[i].0, dir));
            }
            lemma_stored_all_known(cache, d, dir);
        }
        lemma_stored_known(before, items.last().0, items.last().1, dir);
    }
}

/// Law: once the configs that `missing` asks for are stored, whatever they
/// say, all that `resolve` needs is known.
pub proof fn law_missing_is_enough(
    cache: Seq<(Seq<u8>, Option<ConfigView>)>,
    manifest_dir: Seq<u8>,
    items: Seq<(Seq<u8>, Option<ConfigView>)>,
)
    requires
        items.map_values(|x: (Seq<u8>, Option<ConfigView>)| x.0) == ancestors(
            manifest_dir,
        ).reverse().filter(|d: Seq<u8>| !known(cache, d)),
    ensures
        all_known(stored_all(cache, items), ancestors(manifest_dir)),
{
    let up = ancestors(manifest_dir);
    let down = up.reverse();
    let unread = |d: Seq<u8>| !known(cache, d);
    let dirs = items.map_values(|x: (Seq<u8>, Option<ConfigView>)| x.0);
    assert forall|i: int| 0 <= i < up.len() implies known(
        stored_all(cache, items),
        #[trigger] up[i],
    ) by {
        let d = up[i];
        if !known(cache, d) {
            let k = up.len() - 1 - i;
            assert(down[k] == d);
            assert(unread(down[k]));
            down.lemma_filter_contains(unread, k);
            assert(dirs.contains(d));
            let q = choose|q: int| 0 <= q < dirs.len() && dirs[q] == d;
            assert(items[q].0 == d);
            assert(same_path(items[q].0, d));
        }
        lemma_stored_all_known(cache, items, d);
    }
}

/// Whether a config sets the target directory.
pub open spec fn sets_target(c: Option<ConfigView>) -> bool {
    c matches Some(f) && f.target_dir is Some
}

/// Whether a config sets the build directory.
pub open spec fn sets_build(c: Option<ConfigView>) -> bool {
    c matches Some(f) && f.build_dir is Some
}

/// Where no config sets a target directory, none is found.
proof fn lemma_no_target(configs: Seq<Option<ConfigView>>)
    requires
        forall|i: int| 0 <= i < configs.len() ==> !sets_target(#[trigger] configs[i]),
    ensures
        last_target(configs) is None,
    decreases configs.len(),
{
    if configs.len() > 0 {
        let d = configs.drop_last();
        assert forall|i: int| 0 <= i < d.len() implies !sets_target(#[trigger] d[i]) by {
            assert(d[i] == configs[i]);
        }
        lemma_no_target(d);
        assert(!sets_target(configs[configs.len() - 1]));
    }
}

/// Where no config sets a build directory, none is found.
proof fn lemma_no_build(configs: Seq<Option<ConfigView>>)
    requires
        forall|i: int| 0 <= i < configs.len() ==> !sets_build(#[trigger] configs[i]),
    ensures
        last_build(configs) is None,
    decreases configs.len(),
{
    if configs.len() > 0 {
        let d = configs.drop_last();
        assert forall|i: int| 0 <= i < d.len() implies !sets_build(#[trigger] d[i]) by {
            assert(d[i] == configs[i]);
        }
        lemma_no_build(d);
        assert(!sets_build(configs[configs.len() - 1]));
    }
}

/// Which configs bear on a project: the one in Cargo's home, and without the
/// default output directory those of its ancestors.
proof fn lemma_configs(v: ResolverView, manifest_dir: Seq<u8>, has_default: bool)
    ensures
        ({
            let configs = v.configs(manifest_dir, has_default);
            let up = ancestors(manifest_dir);
            &&& configs[0] == v.home
            &&& configs.len() == if has_default {
                1
            } else {
                up.len() + 1
            }
            &&& forall|i: int|
                1 <= i < configs.len() ==> #[trigger] configs[i] == config_for(
                    v.cache,
                    up[up.len() - i],
                )
        }),
{
}

/// Law: where neither the environment nor a config above the project sets the
/// target directory, the config in Cargo's home does, whether or not the project
/// has its default output directory. The directory is listed.
pub proof fn law_home_sets_target(v: ResolverView, manifest_dir: Seq<u8>, has_default: bool)
    requires
        v.env_target is None,
        sets_target(v.home),
        has_default || forall|i: int|
            0 <= i < ancestors(manifest_dir).len() ==> !sets_target(
                config_for(v.cache, #[trigger] ancestors(manifest_dir)[i]),
            ),
    ensures
        ({
            let dir = absolutized(v.home->0.base, encode_utf8(v.home->0.target_dir->0));
            &&& v.target_path(manifest_dir, has_default) == Some(dir)
            &&& listed(v.resolve(manifest_dir, has_default), dir)
        }),
{
    let configs = v.configs(manifest_dir, has_default);
    lemma_configs(v, manifest_dir, has_default);
    assert forall|i: int| 0 < i < configs.len() implies !(#[trigger] configs[i] matches Some(c)
        && c.target_dir is Some) by {
        let up = ancestors(manifest_dir);
        assert(!sets_target(config_for(v.cache, up[up.len() - i])));
    }
    lemma_last_target(configs, 0);
    law_resolve_lists_configured(v, manifest_dir, has_default);
}

/// Law: where neither the environment nor a config above the project sets the
/// build directory, the config in Cargo's home does, whether or not the project
/// has its default output directory. The directory is listed.
pub proof fn law_home_sets_build(v: ResolverView, manifest_dir: Seq<u8>, has_default: bool)
    requires
        v.env_build is None,
        sets_build(v.home),
        has_default || forall|i: int|
            0 <= i < ancestors(manifest_dir).len() ==> !sets_build(
                config_for(v.cache, #[trigger] ancestors(manifest_dir)[i]),
            ),
    ensures
        ({
            let dir = build_dir_path(
                v.home->0.build_dir->0,
                v.home->0.base,
                manifest_dir,
                v.cargo_home,
            );
            &&& v.build_path(manifest_dir, has_default) == dir
            &&& dir is Some ==> listed(v.resolve(manifest_dir, has_default), dir->0)
        }),
{
    let configs = v.configs(manifest_dir, has_default);
    lemma_configs(v, manifest_dir, has_default);
    assert forall|i: int| 0 < i < configs.len() implies !(#[trigger] configs[i] matches Some(c)
        && c.build_dir is Some) by {
        let up = ancestors(manifest_dir);
        assert(!sets_build(config_for(v.cache, up[up.len() - i])));
    }
    lemma_last_build(configs, 0);
    law_resolve_lists_configured(v, manifest_dir, has_default);
}

/// Law: what nobody sets is not made up: without any setting a project has its
/// default output directory alone.
pub proof fn law_nothing_set_nothing_listed(
    v: ResolverView,
    manifest_dir: Seq<u8>,
    has_default: bool,
)
    requires
        v.env_target is None,
        v.env_build is None,
        !sets_target(v.home),
        !sets_build(v.home),
        has_default || forall|i: int|
            0 <= i < ancestors(manifest_dir).len() ==> {
                let c = config_for(v.cache, #[trigger] ancestors(manifest_dir)[i]);
                !sets_target(c) && !sets_build(c)
            },
    ensures
        v.target_path(manifest_dir, has_default) is None,
        v.build_path(manifest_dir, has_default) is None,
        v.resolve(manifest_dir, has_default).len() == 1,
        v.resolve(manifest_dir, has_default)[0].target_dir == joined(
            manifest_dir,
            encode_utf8("target"@),
        ),
{
    let configs = v.configs(manifest_dir, has_default);
    let up = ancestors(manifest_dir);
    lemma_configs(v, manifest_dir, has_default);
    assert forall|i: int| 0 <= i < configs.len() implies !sets_target(#[trigger] configs[i])
        && !sets_build(configs[i]) by {
        if i > 0 {
            let c = config_for(v.cache, up[up.len() - i]);
            assert(!sets_target(c) && !sets_build(c));
        }
    }
    lemma_no_target(configs);
    lemma_no_build(configs);
}

/// Law: every directory that is configured is listed, and nothing is listed but
/// the default output directory, the target directory and the build directory,
/// each as what it is.
pub proof fn law_resolve_lists_configured(
    v: ResolverView,
    manifest_dir: Seq<u8>,
    has_default: bool,
)
    ensures
        ({
            let out = v.resolve(manifest_dir, has_default);
            let target = v.target_path(manifest_dir, has_default);
            let build = v.build_path(manifest_dir, has_default);
            &&& out[0].target_dir == joined(manifest_dir, encode_utf8("target"@))
            &&& out[0].kind == OutputKind::Target
            &&& target matches Some(d) ==> listed(out, d)
            &&& build matches Some(d) ==> listed(out, d)
            &&& forall|i: int|
                1 <= i < out.len() ==> {
                    let d = #[trigger] out[i];
                    ||| (d.kind == OutputKind::Target && Some(d.target_dir) == target)
                    ||| (d.kind == OutputKind::Build && Some(d.target_dir) == build)
                }
        }),
{
    let base = seq![
        DiscoveredView {
            project_path: manifest_dir,
            target_dir: default_target(manifest_dir),
            kind: OutputKind::Target,
        },
    ];
    let target = v.target_path(manifest_dir, has_default);
    let build = v.build_path(manifest_dir, has_default);
    let with_target = with_dir(base, manifest_dir, target, OutputKind::Target);
    if let Some(d) = target {
        lemma_with_dir_lists(base, manifest_dir, target, OutputKind::Target, d);
        lemma_with_dir_lists(with_target, manifest_dir, build, OutputKind::Build, d);
    }
    if let Some(d) = build {
        lemma_with_dir_lists(with_target, manifest_dir, build, OutputKind::Build, d);
    }
}

/// Law: without the environment a config above the project beats the one in
/// Cargo's home, and its directory is listed.
pub proof fn law_ancestor_beats_home(v: ResolverView, manifest_dir: Seq<u8>, k: int)
    requires
        v.env_target is None,
        0 <= k < ancestors(manifest_dir).len(),
        sets_target(config_for(v.cache, ancestors(manifest_dir)[k])),
        forall|i: int|
            0 <= i < k ==> !sets_target(config_for(v.cache, #[trigger] ancestors(manifest_dir)[i])),
    ensures
        ({
            let c = config_for(v.cache, ancestors(manifest_dir)[k])->0;
            listed(
                v.resolve(manifest_dir, false),
                absolutized(c.base, encode_utf8(c.target_dir->0)),
            )
        }),
{
    assert forall|i: int| 0 <= i < k implies !(config_for(
        v.cache,
        #[trigger] ancestors(manifest_dir)[i],
    ) matches Some(c) && c.target_dir is Some) by {
        assert(!sets_target(config_for(v.cache, ancestors(manifest_dir)[i])));
    }
    law_deepest_config_wins(v, manifest_dir, k);
    law_resolve_lists_configured(v, manifest_dir, false);
}

/// Law: a directory is known exactly if a config, or that there is none, was
/// stored for it, and the first one that was stored counts.
pub proof fn law_first_stored_counts(
    cache: Seq<(Seq<u8>, Option<ConfigView>)>,
    dir: Seq<u8>,
    config: Option<ConfigView>,
)
    ensures
        known(cache, dir) <==> exists|i: int|
            0 <= i < cache.len() && same_path(#[trigger] cache[i].0, dir),
        known(stored(cache, dir, config), dir),
        known(cache, dir) ==> config_for(stored(cache, dir, config), dir) == config_for(cache, dir),
        !known(cache, dir) ==> config_for(stored(cache, dir, config), dir) == config,
        distinct(cache) ==> forall|i: int|
            0 <= i < cache.len() ==> config_for(cache, #[trigger] cache[i].0) == cache[i].1,
{
    lemma_cache_index(cache, dir);
    if !known(cache, dir) {
        law_stored_once(cache, dir, config, dir);
    }
    if distinct(cache) {
        assert forall|i: int| 0 <= i < cache.len() implies config_for(
            cache,
            #[trigger] cache[i].0,
        ) == cache[i].1 by {
            assert forall|j: int| 0 <= j < i implies !same_path(
                #[trigger] cache[j].0,
                cache[i].0,
            ) by {}
            lemma_cache_index_is(cache, cache[i].0, i);
        }
    }
}

/// Law: what was found stays, and every candidate that exists is listed after
/// it, whoever brought it in.
pub proof fn law_existing_are_listed(
    found: Seq<DiscoveredView>,
    candidates: Seq<DiscoveredView>,
    present: Seq<bool>,
)
    requires
        present.len() >= candidates.len(),
    ensures
        ({
            let out = with_existing(found, candidates, present);
            &&& found.len() <= out.len()
            &&& out.take(found.len() as int) == found
            &&& forall|k: int|
                0 <= k < candidates.len() && present[k] ==> listed(
                    out,
                    (#[trigger] candidates[k]).target_dir,
                )
        }),
    decreases candidates.len(),
{
    let out = with_existing(found, candidates, present);
    if candidates.len() == 0 {
        assert(out.take(found.len() as int) =~= found);
    } else {
        let rest = candidates.drop_last();
        let before = with_existing(found, rest, present);
        let d = candidates.last();
        let last = candidates.len() - 1;
        let dir = if present[last] {
            Some(d.target_dir)
        } else {
            None
        };
        law_existing_are_listed(found, rest, present);
        assert(out.take(found.len() as int) =~= before.take(found.len() as int));
        assert forall|k: int| 0 <= k < candidates.len() && present[k] implies listed(
            out,
            (#[trigger] candidates[k]).target_dir,
        ) by {
            if k < last {
                assert(rest[k] == candidates[k]);
            }
            lemma_with_dir_lists(before, d.project_path, dir, d.kind, candidates[k].target_dir);
        }
    }
}

/// The name of the directory that holds config files.
proof fn lemma_dot_cargo()
    ensures
        is_name(encode_utf8(".cargo"@)),
{
    reveal_strlit(".cargo");
    let s = ".cargo"@;
    let b = encode_utf8(s);
    assert(s.len() == 6 && s[0] == '.' && s[1] == 'c' && s[2] == 'a' && s[3] == 'r' && s[4] == 'g'
        && s[5] == 'o');
    assert forall|i: int| 0 <= i < s.len() implies ((#[trigger] s[i]) as u32) < 0x80 by {
        assert(i == 0 || i == 1 || i == 2 || i == 3 || i == 4 || i == 5);
    }
    law_ascii_bytes(s);
    assert forall|i: int| 0 <= i < b.len() implies #[trigger] b[i] != SLASH by {
        assert(i == 0 || i == 1 || i == 2 || i == 3 || i == 4 || i == 5);
    }
}

/// Law: relative values of a config in a directory `.cargo` start from the
/// directory that holds it, and those of one elsewhere from its own directory,
/// whatever the config file is called.
pub proof fn law_config_base(dir: Seq<u8>, name: Seq<u8>)
    requires
        dir.len() > 0,
        is_name(name),
    ensures
        config_base(joined(joined(dir, encode_utf8(".cargo"@)), name)) matches Some(b)
            && same_path(b, dir),
        file_name(dir) != Some(encode_utf8(".cargo"@)) ==> (config_base(joined(dir, name)) matches Some(
            b,
        ) && same_path(b, dir)),
{
    let cargo = encode_utf8(".cargo"@);
    lemma_dot_cargo();
    law_something_is_there(dir);
    let inner = joined(dir, cargo);
    law_joined_name(dir, cargo);
    assert(inner.len() > 0);
    law_joined_name(inner, name);
    law_joined_name(dir, name);
    let d = parent(joined(inner, name))->0;
    law_parent_drops_last_component(d);
    let c = components(d);
    assert(c == components(dir).push(cargo));
    assert(c.last() == cargo);
    assert(c.len() >= 2);
    if c == seq![root_dir()] {
        assert(c.len() == 1);
    }
    assert(c.drop_last() =~= components(dir));
}

/// Law: a build directory without templates is its value, seen from the base.
pub proof fn law_build_dir_without_templates(
    raw: Seq<char>,
    base: Seq<u8>,
    manifest_dir: Seq<u8>,
    cargo_home: Seq<u8>,
)
    requires
        !raw.contains('{'),
    ensures
        build_dir_path(raw, base, manifest_dir, cargo_home) == Some(
            absolutized(base, encode_utf8(raw)),
        ),
{
    lemma_templates();
    let none = Seq::<char>::empty();
    law_replaced(raw, none, "{workspace-root}"@, lossy_text(manifest_dir));
    law_replaced(raw, none, "{cargo-cache-home}"@, lossy_text(cargo_home));
    law_contains_text(raw, none, "{workspace-path-hash}"@);
    law_position(raw, '{', none);
}

/// All templates start with a brace.
proof fn lemma_templates()
    ensures
        "{workspace-root}"@.len() == 16,
        "{workspace-root}"@[0] == '{',
        "{workspace-root}"@[1] == 'w',
        "{workspace-root}"@[11] == 'r',
        !"{workspace-root}"@.skip(1).contains('{'),
        "{cargo-cache-home}"@.len() == 18,
        "{cargo-cache-home}"@[0] == '{',
        "{cargo-cache-home}"@[1] == 'c',
        !"{cargo-cache-home}"@.skip(1).contains('{'),
        "{workspace-path-hash}"@.len() == 21,
        "{workspace-path-hash}"@[0] == '{',
        "{workspace-path-hash}"@[1] == 'w',
        "{workspace-path-hash}"@[11] == 'p',
{
    reveal_strlit("{workspace-root}");
    reveal_strlit("{cargo-cache-home}");
    reveal_strlit("{workspace-path-hash}");
}

/// A template that stands in front is not another one, and there is no other
/// behind it.
proof fn lemma_other_template(mark: Seq<char>, rest: Seq<char>, pat: Seq<char>, k: int)
    requires
        mark.len() > k > 0,
        pat.len() > k,
        pat[0] == '{',
        mark[k] != pat[k],
        !mark.skip(1).contains('{'),
        !rest.contains('{'),
    ensures
        !contains_text(mark + rest, pat),
        forall|with: Seq<char>| #[trigger] replaced(mark + rest, pat, with) == mark + rest,
{
    let s = mark + rest;
    let tail = s.skip(1);
    assert(tail =~= mark.skip(1) + rest);
    assert(!tail.contains('{')) by {
        if tail.contains('{') {
            let i = choose|i: int| 0 <= i < tail.len() && tail[i] == '{';
            if i < mark.len() - 1 {
                assert(mark.skip(1)[i] == '{');
            } else {
                assert(rest[i - (mark.len() - 1)] == '{');
            }
        }
    }
    assert(!starts_with(s, pat)) by {
        if starts_with(s, pat) {
            assert(s.take(pat.len() as int)[k] == pat[k]);
            assert(s[k] == mark[k]);
        }
    }
    assert forall|with: Seq<char>| #[trigger] replaced(s, pat, with) == s by {
        law_replaced(tail, Seq::empty(), pat, with);
        assert(seq![s[0]] + tail =~= s);
    }
    if contains_text(s, pat) {
        let i = choose|i: int| 0 <= i <= s.len() && #[trigger] starts_with(s.skip(i), pat);
        if i == 0 {
            assert(s.skip(0) =~= s);
        } else {
            assert(s.skip(i).take(pat.len() as int)[0] == pat[0]);
            assert(tail[i - 1] == s[i]);
            assert(tail.contains(tail[i - 1]));
        }
    }
}

/// Law: the two templates that are known stand for the project's directory and
/// for Cargo's home.
pub proof fn law_build_dir_templates(
    rest: Seq<char>,
    base: Seq<u8>,
    manifest_dir: Seq<u8>,
    cargo_home: Seq<u8>,
)
    requires
        !rest.contains('{'),
        !lossy_text(manifest_dir).contains('{'),
        !lossy_text(cargo_home).contains('{'),
    ensures
        build_dir_path("{workspace-root}"@ + rest, base, manifest_dir, cargo_home) == Some(
            absolutized(base, encode_utf8(lossy_text(manifest_dir) + rest)),
        ),
        build_dir_path("{cargo-cache-home}"@ + rest, base, manifest_dir, cargo_home) == Some(
            absolutized(base, encode_utf8(lossy_text(cargo_home) + rest)),
        ),
{
    lemma_templates();
    let none = Seq::<char>::empty();
    let root = "{workspace-root}"@;
    let home = "{cargo-cache-home}"@;
    let hash = "{workspace-path-hash}"@;
    let m = lossy_text(manifest_dir);
    let h = lossy_text(cargo_home);
    law_replaced(rest, none, root, m);
    law_replaced(rest, none, home, h);
    law_replaced(none, rest, root, m);
    assert(none + root + rest =~= root + rest);
    assert(none + m + rest =~= m + rest);
    lemma_other_template(root, rest, hash, 11);
    lemma_no_brace(m, rest);
    law_replaced(m + rest, none, home, h);
    law_position(m + rest, '{', none);
    lemma_other_template(home, rest, hash, 1);
    lemma_other_template(home, rest, root, 1);
    law_replaced(none, rest, home, h);
    assert(none + home + rest =~= home + rest);
    assert(none + h + rest =~= h + rest);
    lemma_no_brace(h, rest);
    law_position(h + rest, '{', none);
}

/// Two texts without braces have none together.
proof fn lemma_no_brace(a: Seq<char>, b: Seq<char>)
    requires
        !a.contains('{'),
        !b.contains('{'),
    ensures
        !(a + b).contains('{'),
{
    lemma_concat_contains(a, b);
}

/// Law: a build directory that names a hash, or a template that is not known, is
/// none.
pub proof fn law_build_dir_unknown_template(
    a: Seq<char>,
    b: Seq<char>,
    base: Seq<u8>,
    manifest_dir: Seq<u8>,
    cargo_home: Seq<u8>,
)
    ensures
        build_dir_path(
            a + "{workspace-path-hash}"@ + b,
            base,
            manifest_dir,
            cargo_home,
        ) is None,
        !a.contains('{') && !b.contains('{') && !starts_with(b, "workspace-root}"@)
            && !starts_with(b, "cargo-cache-home}"@) ==> build_dir_path(
            a + "{"@ + b,
            base,
            manifest_dir,
            cargo_home,
        ) is None,
{
    law_contains_text(a, b, "{workspace-path-hash}"@);
    if !a.contains('{') && !b.contains('{') && !starts_with(b, "workspace-root}"@) && !starts_with(
        b,
        "cargo-cache-home}"@,
    ) {
        lemma_template_names();
        let raw = a + "{"@ + b;
        lemma_brace_stays(a, b, "{workspace-root}"@, "workspace-root}"@, lossy_text(manifest_dir));
        lemma_brace_stays(a, b, "{cargo-cache-home}"@, "cargo-cache-home}"@, lossy_text(cargo_home));
        law_position(a, '{', b);
        assert(raw =~= a + seq!['{'] + b);
    }
}

/// What stands between the braces of the templates.
proof fn lemma_template_names()
    ensures
        "{"@ == seq!['{'],
        "{workspace-root}"@ == seq!['{'] + "workspace-root}"@,
        "{cargo-cache-home}"@ == seq!['{'] + "cargo-cache-home}"@,
{
    reveal_strlit("{");
    assert("{"@ =~= seq!['{']);
    assert("{workspace-root}"@ =~= seq!['{'] + "workspace-root}"@) by {
        reveal_strlit("{workspace-root}");
        reveal_strlit("workspace-root}");
    }
    assert("{cargo-cache-home}"@ =~= seq!['{'] + "cargo-cache-home}"@) by {
        reveal_strlit("{cargo-cache-home}");
        reveal_strlit("cargo-cache-home}");
    }
}

/// A brace that starts no template stays.
proof fn lemma_brace_stays(
    a: Seq<char>,
    b: Seq<char>,
    pat: Seq<char>,
    name: Seq<char>,
    with: Seq<char>,
)
    requires
        !a.contains('{'),
        !b.contains('{'),
        pat =~= seq!['{'] + name,
        !starts_with(b, name),
        "{"@ == seq!['{'],
    ensures
        replaced(a + "{"@ + b, pat, with) == a + "{"@ + b,
{
    let s = "{"@ + b;
    assert(pat[0] == '{');
    if starts_with(s, pat) {
        assert(s.take(pat.len() as int) == pat);
        assert(b.take(name.len() as int) =~= name) by {
            assert forall|i: int| 0 <= i < name.len() implies #[trigger] b.take(name.len() as int)[i]
                == name[i] by {
                assert(s.take(pat.len() as int)[i + 1] == pat[i + 1]);
                assert(s[i + 1] == b[i]);
            }
        }
    }
    law_replaced(b, Seq::empty(), pat, with);
    assert(s.skip(1) =~= b);
    assert(replaced(s, pat, with) =~= s);
    lemma_replaced_after(a, s, pat, with);
    assert(a + "{"@ + b =~= a + s);
}

/// Law: a variable that is not set, or blank, names nothing; any other names
/// exactly what it says.
pub proof fn law_environment_dirs(v: Seq<char>, home: Option<Seq<char>>)
    ensures
        env_dir_of(None) is None,
        trimmed(v).len() == 0 ==> env_dir_of(Some(v)) is None,
        trimmed(v).len() > 0 ==> env_dir_of(Some(v)) == Some(encode_utf8(v)),
        trimmed(v).len() > 0 ==> cargo_home_of(Some(v), home) == encode_utf8(v),
        trimmed(v).len() > 0 ==> cargo_home_of(None, Some(v)) == joined(
            encode_utf8(v),
            encode_utf8(".cargo"@),
        ),
        trimmed(v).len() == 0 ==> cargo_home_of(Some(v), home) == cargo_home_of(None, home),
        trimmed(v).len() == 0 ==> cargo_home_of(None, Some(v)) == encode_utf8(".cargo"@),
        cargo_home_of(None, None) == encode_utf8(".cargo"@),
{
}

/// Law: a config file counts exactly if it could be read and sets one of the two
/// directories, and then says what its text says.
pub proof fn law_config_of(path: Seq<u8>, text: Seq<char>)
    ensures
        config_of(path, None) is None,
        config_of(path, Some(text)) matches Some(c) ==> {
            &&& c.target_dir == build_dirs(text).0
            &&& c.build_dir == build_dirs(text).1
            &&& Some(c.base) == config_base(path)
        },
        config_of(path, Some(text)) is Some <==> config_base(path) is Some && (build_dirs(text).0
            is Some || build_dirs(text).1 is Some),
{
}

} // verus!
