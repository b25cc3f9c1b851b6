//! Output directories of Cargo projects: what is known of each, and how it
//! is found and measured.
use vstd::prelude::*;
use vstd::utf8::encode_utf8;

use crate::file_path::{lossy_text, text_of, FilePath};
use crate::path::{file_name, joined, same_path};

pub mod cache;
pub mod cargo_config;
pub mod config_text;
pub mod discover;
pub mod measure;
pub mod search;

verus! {

/// A moment of the wall clock: nanoseconds since the Unix epoch, negative
/// before it.
pub type Timestamp = i128;

/// Which config key produced an output directory.
#[derive(Clone, Copy, Debug, PartialEq, Eq, Structural)]
pub enum OutputKind {
    /// The default `target/` or `build.target-dir`.
    Target,
    /// `build.build-dir`.
    Build,
}

impl Default for OutputKind {
    fn default() -> (r: OutputKind)
        ensures
            r == OutputKind::Target,
    {
        OutputKind::Target
    }
}

/// One row of the table: an output directory and what was measured of it.
#[derive(Debug)]
pub struct TargetEntry {
    /// The directory that holds `Cargo.toml`.
    pub project_path: FilePath,
    /// The output directory.
    pub target_dir: FilePath,
    /// The key that the directory came from.
    pub kind: OutputKind,
    /// Disk usage in bytes, or nothing while it is not measured yet.
    pub size: Option<u64>,
    /// The newest modification time below the directory, or nothing while it
    /// is not measured yet or deleted.
    pub last_modified: Option<Timestamp>,
}

/// What a `TargetEntry` says.
#[verifier::ext_equal]
pub struct EntryView {
    pub project_path: Seq<u8>,
    pub target_dir: Seq<u8>,
    pub kind: OutputKind,
    pub size: Option<u64>,
    pub last_modified: Option<Timestamp>,
}

impl View for TargetEntry {
    type V = EntryView;

    open spec fn view(&self) -> EntryView {
        EntryView {
            project_path: self.project_path@,
            target_dir: self.target_dir@,
            kind: self.kind,
            size: self.size,
            last_modified: self.last_modified,
        }
    }
}

impl Clone for TargetEntry {
    fn clone(&self) -> (r: TargetEntry)
        ensures
            r@ == self@,
    {
        TargetEntry {
            project_path: self.project_path.clone(),
            target_dir: self.target_dir.clone(),
            kind: self.kind,
            size: self.size,
            last_modified: self.last_modified,
        }
    }
}

/// What a list of entries says.
pub open spec fn entries_view(v: Seq<TargetEntry>) -> Seq<EntryView> {
    v.map_values(|e: TargetEntry| e@)
}

/// The view of an optional entry.
pub open spec fn entry_view(e: Option<TargetEntry>) -> Option<EntryView> {
    match e {
        Some(x) => Some(x@),
        None => None,
    }
}

/// The name of a project: the last component of its path, or nothing where
/// that is not a name.
pub open spec fn project_name_of(path: Seq<u8>) -> Seq<char> {
    lossy_text(
        match file_name(path) {
            Some(n) => n,
            None => Seq::empty(),
        },
    )
}

impl TargetEntry {
    /// The name of the project.
    pub fn project_name(&self) -> (s: String)
        ensures
            s@ == project_name_of(self@.project_path),
    {
        match self.project_path.file_name() {
            Some(n) => text_of(n),
            None => {
                let none: Vec<u8> = Vec::new();
                assert(none@ =~= Seq::<u8>::empty());
                text_of(none.as_slice())
            },
        }
    }
}

/// A fresh reading of one directory.
#[derive(Debug)]
pub struct Measurement {
    /// The directory that was measured.
    pub target_dir: FilePath,
    /// Its disk usage in bytes.
    pub size: u64,
    /// The newest modification time below it, or nothing if it is gone.
    pub last_modified: Option<Timestamp>,
}

/// What a `Measurement` says.
#[verifier::ext_equal]
pub struct MeasurementView {
    pub target_dir: Seq<u8>,
    pub size: u64,
    pub last_modified: Option<Timestamp>,
}

impl View for Measurement {
    type V = MeasurementView;

    open spec fn view(&self) -> MeasurementView {
        MeasurementView {
            target_dir: self.target_dir@,
            size: self.size,
            last_modified: self.last_modified,
        }
    }
}

impl Clone for Measurement {
    fn clone(&self) -> (r: Measurement)
        ensures
            r@ == self@,
    {
        Measurement {
            target_dir: self.target_dir.clone(),
            size: self.size,
            last_modified: self.last_modified,
        }
    }
}

/// What a list of measurements says.
pub open spec fn measurements_view(v: Seq<Measurement>) -> Seq<MeasurementView> {
    v.map_values(|m: Measurement| m@)
}

/// A project and one of its output directories, as discovery finds them.
#[derive(Debug)]
pub struct DiscoveredEntry {
    /// The directory that holds `Cargo.toml`.
    pub project_path: FilePath,
    /// The default `target/` or a configured directory.
    pub target_dir: FilePath,
    /// The key that the directory came from.
    pub kind: OutputKind,
}

/// What a `DiscoveredEntry` says.
#[verifier::ext_equal]
pub struct DiscoveredView {
    pub project_path: Seq<u8>,
    pub target_dir: Seq<u8>,
    pub kind: OutputKind,
}

impl View for DiscoveredEntry {
    type V = DiscoveredView;

    open spec fn view(&self) -> DiscoveredView {
        DiscoveredView {
            project_path: self.project_path@,
            target_dir: self.target_dir@,
            kind: self.kind,
        }
    }
}

impl Clone for DiscoveredEntry {
    fn clone(&self) -> (r: DiscoveredEntry)
        ensures
            r@ == self@,
    {
        DiscoveredEntry {
            project_path: self.project_path.clone(),
            target_dir: self.target_dir.clone(),
            kind: self.kind,
        }
    }
}

impl vstd::std_specs::cmp::PartialEqSpecImpl for DiscoveredEntry {
    open spec fn obeys_eq_spec() -> bool {
        true
    }

    open spec fn eq_spec(&self, other: &DiscoveredEntry) -> bool {
        same_path(self@.project_path, other@.project_path) && same_path(
            self@.target_dir,
            other@.target_dir,
        ) && self@.kind == other@.kind
    }
}

impl PartialEq for DiscoveredEntry {
    fn eq(&self, other: &DiscoveredEntry) -> (r: bool) {
        self.project_path.same(&other.project_path) && self.target_dir.same(&other.target_dir)
            && self.kind == other.kind
    }
}

impl Eq for DiscoveredEntry {

}

/// What a list of discovered entries says.
pub open spec fn discovered_view(v: Seq<DiscoveredEntry>) -> Seq<DiscoveredView> {
    v.map_values(|d: DiscoveredEntry| d@)
}

/// The default output directory of a project.
pub open spec fn default_target(project_path: Seq<u8>) -> Seq<u8> {
    joined(project_path, encode_utf8("target"@))
}

impl DiscoveredEntry {
    /// A project with the given output directory.
    pub fn new(project_path: FilePath, target_dir: FilePath, kind: OutputKind) -> (r: Self)
        ensures
            r@ == (DiscoveredView {
                project_path: project_path@,
                target_dir: target_dir@,
                kind,
            }),
    {
        DiscoveredEntry { project_path, target_dir, kind }
    }
}

impl vstd::std_specs::convert::FromSpecImpl<FilePath> for DiscoveredEntry {
    open spec fn obeys_from_spec() -> bool {
        false
    }

    open spec fn from_spec(project_path: FilePath) -> DiscoveredEntry {
        arbitrary()
    }
}

impl From<FilePath> for DiscoveredEntry {
    /// A project with its default output directory.
    fn from(project_path: FilePath) -> (r: DiscoveredEntry)
        ensures
            r@ == (DiscoveredView {
                project_path: project_path@,
                target_dir: default_target(project_path@),
                kind: OutputKind::Target,
            }),
    {
        let target_dir = project_path.join("target");
        DiscoveredEntry { project_path, target_dir, kind: OutputKind::Target }
    }
}

/// Law: a project in a directory is named after it, whatever stands above. The root
/// has no name.
pub proof fn law_project_name(above: Seq<u8>, name: Seq<u8>)
    requires
        above.len() > 0,
        crate::path::is_name(name),
    ensures
        project_name_of(joined(above, name)) == lossy_text(name),
        crate::path::components(above) == seq![seq![0x2fu8]] ==> project_name_of(above)
            == lossy_text(Seq::empty()),
{
    crate::path::law_joined_name(above, name);
    assert(crate::path::root_dir() =~= seq![0x2fu8]);
}

/// Law: the default output directory of a project is what is called `target` in it.
pub proof fn law_default_target(project: Seq<u8>)
    requires
        project.len() > 0,
    ensures
        crate::path::components(default_target(project)).len() == crate::path::components(
            project,
        ).len() + 1,
        file_name(default_target(project)) == Some(
            seq![0x74u8, 0x61, 0x72, 0x67, 0x65, 0x74],
        ),
        crate::path::components(default_target(project)).drop_last() == crate::path::components(
            project,
        ),
{
    reveal_strlit("target");
    crate::file_path::law_ascii_bytes("target"@);
    let t = encode_utf8("target"@);
    assert(t =~= seq![0x74u8, 0x61, 0x72, 0x67, 0x65, 0x74]);
    crate::path::law_joined_name(project, t);
}

} // verus!
