//! The declarative data model: a bundle's metadata, its ordered patches,
//! variable bindings and argument specifications.

use vstd::prelude::*;

verus! {

/// Bundle metadata. `priority` is the inter-bundle ordering weight.
pub struct Manifest {
    pub version: String,
    pub dump_lua: bool,
    pub priority: usize,
}

/// One externally authored declaration unit: metadata, ordered patches,
/// variable bindings and argument specifications.
pub struct PatchManifest {
    pub manifest: Manifest,
    pub patches: Vec<Patch>,
    pub vars: Vec<(String, String)>,
    pub args: Vec<(String, PatchArgs)>,
}

/// Specification of one command-line argument a bundle declares.
pub struct PatchArgs {
    pub help: Option<String>,
    pub default: Option<String>,
    pub name_override: bool,
    pub treat_as_flag: bool,
}

/// Where a pattern-kind patch places its payload relative to the matched
/// window. `At` replaces the window entirely.
#[derive(Clone, Copy, PartialEq, Eq, Structural)]
pub enum InsertPosition {
    Before,
    After,
    At,
}

/// Where a copy-kind patch places its merged payload relative to the whole
/// target text.
#[derive(Clone, Copy, PartialEq, Eq, Structural)]
pub enum CopyPosition {
    Append,
    Prepend,
}

/// A patch locating its window by a multi-line wildcard pattern. Each
/// pattern line supports `?` (one arbitrary character) and `*` (zero or more
/// arbitrary characters) and is matched against a trimmed candidate line.
pub struct PatternPatch {
    pub pattern: String,
    pub position: InsertPosition,
    pub target: String,
    pub payload: String,
    pub match_indent: bool,
    /// Apply the patch at most `times` times; excess matches are discarded.
    pub times: Option<usize>,
    /// Retained only for backward-compatible deserialization; has no effect.
    pub overwrite: bool,
}

/// A patch locating its window by a general regular expression. Its internal
/// matching is delegated to an external collaborator; only the shared apply
/// interface is modelled here.
pub struct RegexPatch {
    pub pattern: String,
    pub position: InsertPosition,
    pub target: String,
    pub payload: String,
    pub match_indent: bool,
    pub times: Option<usize>,
}

/// A patch that appends or prepends the newline-joined contents of a list of
/// payload sources to the whole target text. Reading the sources is a
/// delegated, fallible operation; the caller supplies their contents.
pub struct CopyPatch {
    pub position: CopyPosition,
    pub target: String,
    pub sources: Vec<String>,
}

/// A patch injecting a reference to an external module into the target's
/// load sequence; its mechanics are delegated to an external collaborator.
pub struct ModulePatch {
    pub target: String,
    pub source: String,
    pub name: String,
}

/// The closed set of patch kinds, all sharing one application contract.
pub enum Patch {
    Pattern(PatternPatch),
    Regex(RegexPatch),
    Copy(CopyPatch),
    Module(ModulePatch),
}

/// The target name a patch declares.
pub open spec fn spec_patch_target(p: Patch) -> Seq<char> {
    match p {
        Patch::Pattern(x) => x.target@,
        Patch::Regex(x) => x.target@,
        Patch::Copy(x) => x.target@,
        Patch::Module(x) => x.target@,
    }
}

impl Patch {
    /// The target name this patch declares.
    pub fn target_name(&self) -> (t: &String)
        ensures
            t@ == spec_patch_target(*self),
    {
        match self {
            Patch::Pattern(x) => &x.target,
            Patch::Regex(x) => &x.target,
            Patch::Copy(x) => &x.target,
            Patch::Module(x) => &x.target,
        }
    }
}

} // verus!
