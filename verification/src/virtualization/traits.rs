//! What an overlay workspace is made of, and what can go wrong with it.

use vstd::prelude::*;
use vstd::slice::slice_to_vec;
use vstd::string::StringSliceAdditionalSpecFns;

use crate::text::joined;

verus! {

/// Configuration for an overlay-style virtual workspace. Directories are given
/// by the bytes of their paths.
#[derive(Debug)]
pub struct VirtualEnvConfig {
    pub lower_dir: Vec<u8>,
    pub upper_dir: Vec<u8>,
    pub merged_dir: Vec<u8>,
    pub work_dir: Vec<u8>,
}

/// The directories of a workspace.
pub struct Directories {
    pub lower: Seq<u8>,
    pub upper: Seq<u8>,
    pub merged: Seq<u8>,
    pub work: Seq<u8>,
}

impl View for VirtualEnvConfig {
    type V = Directories;

    open spec fn view(&self) -> Directories {
        Directories {
            lower: self.lower_dir@,
            upper: self.upper_dir@,
            merged: self.merged_dir@,
            work: self.work_dir@,
        }
    }
}

impl Clone for VirtualEnvConfig {
    fn clone(&self) -> (copy: Self)
        ensures
            copy@ == self@,
    {
        VirtualEnvConfig {
            lower_dir: slice_to_vec(self.lower_dir.as_slice()),
            upper_dir: slice_to_vec(self.upper_dir.as_slice()),
            merged_dir: slice_to_vec(self.merged_dir.as_slice()),
            work_dir: slice_to_vec(self.work_dir.as_slice()),
        }
    }
}

impl Default for VirtualEnvConfig {
    fn default() -> (config: Self)
        ensures
            config.lower_dir@.len() == 0,
            config.upper_dir@.len() == 0,
            config.merged_dir@.len() == 0,
            config.work_dir@.len() == 0,
    {
        VirtualEnvConfig {
            lower_dir: Vec::new(),
            upper_dir: Vec::new(),
            merged_dir: Vec::new(),
            work_dir: Vec::new(),
        }
    }
}

/// The path of `name` in the directory `base`.
pub open spec fn path_in(base: Seq<u8>, separator: u8, name: Seq<u8>) -> Seq<u8> {
    base.push(separator) + name
}

/// The path of `name` in the directory `base`.
pub fn path_of(base: &[u8], separator: u8, name: &str) -> (path: Vec<u8>)
    ensures
        path@ == path_in(base@, separator, name.spec_bytes()),
        path@ == base@.push(separator) + name.spec_bytes(),
{
    let mut path = slice_to_vec(base);
    path.push(separator);
    let mut name = slice_to_vec(name.as_bytes());
    path.append(&mut name);
    path
}

/// The directories of a workspace over `lower` whose other layers stand in the
/// directory `base`.
pub open spec fn layers_in(lower: Seq<u8>, base: Seq<u8>, separator: u8) -> Directories {
    Directories {
        lower,
        upper: path_in(base, separator, "upper".spec_bytes()),
        merged: path_in(base, separator, "merged".spec_bytes()),
        work: path_in(base, separator, "work".spec_bytes()),
    }
}

impl VirtualEnvConfig {
    /// The workspace over `lower` whose other layers stand in the directory
    /// `base`.
    pub fn over(lower: &[u8], base: &[u8], separator: u8) -> (config: Self)
        ensures
            config@ == layers_in(lower@, base@, separator),
            config.lower_dir@ == lower@,
            config.upper_dir@ == base@.push(separator) + "upper".spec_bytes(),
            config.merged_dir@ == base@.push(separator) + "merged".spec_bytes(),
            config.work_dir@ == base@.push(separator) + "work".spec_bytes(),
    {
        VirtualEnvConfig {
            lower_dir: slice_to_vec(lower),
            upper_dir: path_of(base, separator, "upper"),
            merged_dir: path_of(base, separator, "merged"),
            work_dir: path_of(base, separator, "work"),
        }
    }
}

/// A path consists of the directory, the separator and the name, in this order.
/// The layers of a workspace are called by their names, and the lower one is the
/// directory that was given.
pub proof fn law_layers(lower: Seq<u8>, base: Seq<u8>, separator: u8, name: Seq<u8>)
    ensures
        path_in(base, separator, name).take(base.len() as int) == base,
        path_in(base, separator, name)[base.len() as int] == separator,
        path_in(base, separator, name).skip((base.len() + 1) as int) == name,
        layers_in(lower, base, separator).lower == lower,
        layers_in(lower, base, separator).upper == base.push(separator) + "upper".spec_bytes(),
        layers_in(lower, base, separator).merged == base.push(separator) + "merged".spec_bytes(),
        layers_in(lower, base, separator).work == base.push(separator) + "work".spec_bytes(),
{
}

/// The same name in different directories gives different paths.
pub proof fn lemma_paths_differ(base: Seq<u8>, other: Seq<u8>, separator: u8, name: Seq<u8>)
    requires
        path_in(base, separator, name) == path_in(other, separator, name),
    ensures
        base == other,
{
    let path = path_in(base, separator, name);
    assert(path.len() == base.len() + 1 + name.len());
    assert(path_in(other, separator, name).len() == other.len() + 1 + name.len());
    assert forall|i: int| 0 <= i < base.len() implies base[i] == other[i] by {
        assert(path[i] == base[i]);
        assert(path_in(other, separator, name)[i] == other[i]);
    }
    assert(base =~= other);
}

/// The same directory gives different names different paths.
pub proof fn lemma_names_differ(base: Seq<u8>, separator: u8, name: Seq<u8>, other: Seq<u8>)
    requires
        path_in(base, separator, name) == path_in(base, separator, other),
    ensures
        name == other,
{
    let start = base.len() + 1;
    assert(path_in(base, separator, name).skip(start as int) =~= name);
    assert(path_in(base, separator, other).skip(start as int) =~= other);
}

/// The names of the layers end in different letters.
proof fn lemma_layer_names()
    ensures
        "upper".spec_bytes().len() > 0 && "upper".spec_bytes().last() == 'r' as u8,
        "merged".spec_bytes().len() > 0 && "merged".spec_bytes().last() == 'd' as u8,
        "work".spec_bytes().len() > 0 && "work".spec_bytes().last() == 'k' as u8,
{
    broadcast use vstd::string::is_ascii_spec_bytes;

    reveal_strlit("upper");
    reveal_strlit("merged");
    reveal_strlit("work");
    assert(vstd::string::is_ascii("upper"));
    assert(vstd::string::is_ascii("merged"));
    assert(vstd::string::is_ascii("work"));
}

/// The upper, merged and work directories of workspaces in different
/// directories are six different ones.
pub proof fn law_layers_are_apart(
    lower: Seq<u8>,
    other_lower: Seq<u8>,
    base: Seq<u8>,
    other: Seq<u8>,
    separator: u8,
)
    requires
        base != other,
    ensures
        ({
            let a = layers_in(lower, base, separator);
            let b = layers_in(other_lower, other, separator);
            seq![a.upper, a.merged, a.work, b.upper, b.merged, b.work].no_duplicates()
        }),
{
    let a = layers_in(lower, base, separator);
    let b = layers_in(other_lower, other, separator);
    let paths = seq![a.upper, a.merged, a.work, b.upper, b.merged, b.work];
    lemma_layer_names();
    assert(a.upper.last() == 'r' as u8 && b.upper.last() == 'r' as u8);
    assert(a.merged.last() == 'd' as u8 && b.merged.last() == 'd' as u8);
    assert(a.work.last() == 'k' as u8 && b.work.last() == 'k' as u8);
    if a.upper == b.upper {
        lemma_paths_differ(base, other, separator, "upper".spec_bytes());
    }
    if a.merged == b.merged {
        lemma_paths_differ(base, other, separator, "merged".spec_bytes());
    }
    if a.work == b.work {
        lemma_paths_differ(base, other, separator, "work".spec_bytes());
    }
    assert forall|i: int, j: int| 0 <= i < 6 && 0 <= j < 6 && i != j implies paths[i]
        != paths[j] by {
        assert(paths[0] == a.upper && paths[1] == a.merged && paths[2] == a.work);
        assert(paths[3] == b.upper && paths[4] == b.merged && paths[5] == b.work);
    }
}

/// Report produced after a successful commit of upper-layer changes.
#[derive(Debug)]
pub struct CommitReport {
    /// The paths of the files below the root of a layer, by their components.
    pub files_written: Vec<Vec<Vec<u8>>>,
    pub bytes_mutated: u64,
}

impl Default for CommitReport {
    fn default() -> (report: Self)
        ensures
            report.files_written@.len() == 0,
            report.bytes_mutated == 0,
    {
        CommitReport { files_written: Vec::new(), bytes_mutated: 0 }
    }
}

impl CommitReport {
    /// Take down that a file was written to the lower and the merged layer.
    pub fn record(&mut self, path: Vec<Vec<u8>>, bytes_lower: u64, bytes_merged: u64)
        requires
            old(self).bytes_mutated + bytes_lower + bytes_merged <= u64::MAX,
        ensures
            final(self).files_written@ == old(self).files_written@.push(path),
            final(self).bytes_mutated == old(self).bytes_mutated + bytes_lower + bytes_merged,
    {
        self.files_written.push(path);
        self.bytes_mutated = self.bytes_mutated + bytes_lower + bytes_merged;
    }
}

/// Error type representing I/O failures and low-level system faults.
#[derive(Debug)]
pub enum VirtualizerError {
    Io(String),
    SystemFault(String),
    AccessDenied,
}

impl VirtualizerError {
    /// The error is a system fault with this text.
    pub open spec fn is_fault(self, text: Seq<char>) -> bool {
        self matches VirtualizerError::SystemFault(fault) && fault@ == text
    }

    /// The error in words.
    pub open spec fn described(self) -> Seq<char> {
        match self {
            VirtualizerError::Io(text) => "virtualizer I/O error: "@ + text@,
            VirtualizerError::SystemFault(text) => "virtualizer system fault: "@ + text@,
            VirtualizerError::AccessDenied => "virtualizer access denied"@,
        }
    }

    /// The error in words.
    pub fn describe(&self) -> (text: String)
        ensures
            text@ == self.described(),
            match self {
                VirtualizerError::Io(reason) => text@ == "virtualizer I/O error: "@ + reason@,
                VirtualizerError::SystemFault(reason) => text@ == "virtualizer system fault: "@
                    + reason@,
                VirtualizerError::AccessDenied => text@ == "virtualizer access denied"@,
            },
    {
        match self {
            VirtualizerError::Io(text) => joined("virtualizer I/O error: ", text),
            VirtualizerError::SystemFault(text) => joined("virtualizer system fault: ", text),
            VirtualizerError::AccessDenied => "virtualizer access denied".to_owned(),
        }
    }
}

/// A fault with a text is a system fault and nothing else, and has that text.
pub proof fn law_faults(error: VirtualizerError, text: Seq<char>)
    ensures
        error.is_fault(text) ==> error is SystemFault && error->SystemFault_0@ == text,
        error matches VirtualizerError::SystemFault(reason) && reason@ == text ==> error.is_fault(
            text,
        ),
{
}

/// An error says what kind it is of, and then why.
pub proof fn law_error_texts(error: VirtualizerError)
    ensures
        error matches VirtualizerError::Io(text) ==> error.described() == "virtualizer I/O error: "@
            + text@,
        error matches VirtualizerError::SystemFault(text) ==> error.described()
            == "virtualizer system fault: "@ + text@,
        error is AccessDenied ==> error.described() == "virtualizer access denied"@,
{
}

} // verus!
