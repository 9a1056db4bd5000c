//! The copy-on-write engine: which file operations make, refresh, commit and
//! take down an overlay workspace.
//!
//! A workspace has four layers. The merged layer shows the files of the lower
//! one, with those of the upper one over them. A file of the merged layer may be
//! a link to the lower one, so it is removed before another is written in its
//! place. A commit stages everything in the work layer before it moves anything
//! to the lower one, and what it moved can be taken back.

use vstd::prelude::*;
use vstd::slice::slice_to_vec;

use crate::text::{byte_views, joined, lossy, same_bytes, shown};
use crate::virtualization::traits::{VirtualEnvConfig, VirtualizerError};

verus! {

/// The layers of a workspace.
#[derive(Debug, Clone, Copy, PartialEq, Eq, Structural)]
pub enum Layer {
    Lower,
    Upper,
    Merged,
    Work,
}

/// What stands in a directory of a layer. Names are given by their bytes.
#[derive(Debug)]
pub enum LayerEntry {
    /// A directory with its name and what listing it gave: its entries, or why
    /// it cannot be listed.
    Directory(Vec<u8>, Result<Vec<LayerEntry>, String>),
    File(Vec<u8>),
    /// An entry whose kind cannot be told, with the reason.
    Unreadable(String),
    /// An entry that is neither a directory nor a file.
    Other,
}

/// An operation on the files of a workspace. A path holds the components below
/// the root of a layer.
#[derive(Debug)]
pub enum FileOp {
    /// Make a directory, and those above it.
    MakeDirectory(Layer, Vec<Vec<u8>>),
    /// Remove a layer with everything in it, if it is there.
    Discard(Layer),
    /// Remove everything in a layer, if it is there.
    Reset(Layer),
    /// Give the merged layer the file of the lower one, as a link or a copy.
    Link(Vec<Vec<u8>>),
    /// Remove the file of the merged layer, if it is there.
    Unlink(Vec<Vec<u8>>),
    /// Write the file of the upper layer to the merged one.
    Copy(Vec<Vec<u8>>),
    /// Unlink and copy the file, unless the merged layer's is up to date.
    Refresh(Vec<Vec<u8>>),
    /// Take down in the work layer that the lower one has this directory, if it
    /// has.
    KeepDirectory(Vec<Vec<u8>>),
    /// Make a directory in the lower layer, in one that is there, unless it is
    /// there too.
    AddDirectory(Vec<Vec<u8>>),
    /// Remove an empty directory from the lower layer, unless it was kept.
    DropDirectory(Vec<Vec<u8>>),
    /// Give the work layer a copy of the file of the upper one.
    Stage(Vec<Vec<u8>>),
    /// Give the work layer a copy of the file of the lower one, if there is one.
    Keep(Vec<Vec<u8>>),
    /// Move the file that was staged to the lower layer, in place of its own.
    Move(Vec<Vec<u8>>),
    /// Give the lower layer back the file that was kept, or none if none was.
    Restore(Vec<Vec<u8>>),
    /// Give up for this reason.
    Fail(String),
}

/// A file operation with its names and texts as sequences.
pub enum Operation {
    MakeDirectory(Layer, Seq<Seq<u8>>),
    Discard(Layer),
    Reset(Layer),
    Link(Seq<Seq<u8>>),
    Unlink(Seq<Seq<u8>>),
    Copy(Seq<Seq<u8>>),
    Refresh(Seq<Seq<u8>>),
    KeepDirectory(Seq<Seq<u8>>),
    AddDirectory(Seq<Seq<u8>>),
    DropDirectory(Seq<Seq<u8>>),
    Stage(Seq<Seq<u8>>),
    Keep(Seq<Seq<u8>>),
    Move(Seq<Seq<u8>>),
    Restore(Seq<Seq<u8>>),
    Fail(Seq<char>),
}

impl View for FileOp {
    type V = Operation;

    open spec fn view(&self) -> Operation {
        match self {
            FileOp::MakeDirectory(layer, path) => Operation::MakeDirectory(
                *layer,
                byte_views(path@),
            ),
            FileOp::Discard(layer) => Operation::Discard(*layer),
            FileOp::Reset(layer) => Operation::Reset(*layer),
            FileOp::Link(path) => Operation::Link(byte_views(path@)),
            FileOp::Unlink(path) => Operation::Unlink(byte_views(path@)),
            FileOp::Copy(path) => Operation::Copy(byte_views(path@)),
            FileOp::Refresh(path) => Operation::Refresh(byte_views(path@)),
            FileOp::KeepDirectory(path) => Operation::KeepDirectory(byte_views(path@)),
            FileOp::AddDirectory(path) => Operation::AddDirectory(byte_views(path@)),
            FileOp::DropDirectory(path) => Operation::DropDirectory(byte_views(path@)),
            FileOp::Stage(path) => Operation::Stage(byte_views(path@)),
            FileOp::Keep(path) => Operation::Keep(byte_views(path@)),
            FileOp::Move(path) => Operation::Move(byte_views(path@)),
            FileOp::Restore(path) => Operation::Restore(byte_views(path@)),
            FileOp::Fail(text) => Operation::Fail(text@),
        }
    }
}

/// The operations of a plan.
pub open spec fn operations(plan: Seq<FileOp>) -> Seq<Operation> {
    Seq::new(plan.len(), |i: int| plan[i]@)
}

/// What a walk over a layer is for.
#[derive(Debug, Clone, Copy, PartialEq, Eq, Structural)]
pub enum Pass {
    /// Mirror the lower layer in the merged one.
    Mirror,
    /// Lay the upper layer over the merged one.
    Overlay,
    /// Bring the merged layer up to date with the upper one.
    Refresh,
    /// Stage the upper layer, and keep what it will replace.
    Stage,
    /// Move what was staged to the lower layer.
    Move,
}

/// What is done on entering a directory.
pub open spec fn on_directory(pass: Pass, path: Seq<Seq<u8>>) -> Seq<Operation> {
    match pass {
        Pass::Stage => seq![Operation::KeepDirectory(path)],
        Pass::Move => seq![Operation::AddDirectory(path)],
        _ => seq![Operation::MakeDirectory(Layer::Merged, path)],
    }
}

/// What is done with a file.
pub open spec fn on_file(pass: Pass, path: Seq<Seq<u8>>) -> Seq<Operation> {
    match pass {
        Pass::Mirror => seq![Operation::Link(path)],
        Pass::Overlay => seq![Operation::Unlink(path), Operation::Copy(path)],
        Pass::Refresh => seq![Operation::Refresh(path)],
        Pass::Stage => seq![Operation::Stage(path), Operation::Keep(path)],
        Pass::Move => seq![Operation::Move(path)],
    }
}

/// What is done in the directory at `path`, with its first `n` entries.
pub open spec fn planned_entries(
    pass: Pass,
    path: Seq<Seq<u8>>,
    entries: Seq<LayerEntry>,
    n: nat,
) -> Seq<Operation>
    decreases entries, n,
{
    if n == 0 || n > entries.len() {
        Seq::empty()
    } else {
        planned_entries(pass, path, entries, (n - 1) as nat) + match entries[n - 1] {
            LayerEntry::Directory(name, listing) => on_directory(pass, path.push(name@)) + planned(
                pass,
                path.push(name@),
                listing,
            ),
            LayerEntry::File(name) => on_file(pass, path.push(name@)),
            LayerEntry::Unreadable(text) => seq![Operation::Fail(text@)],
            LayerEntry::Other => Seq::empty(),
        }
    }
}

/// What is done in the directory at `path`, given what listing it gave.
pub open spec fn planned(
    pass: Pass,
    path: Seq<Seq<u8>>,
    listing: Result<Vec<LayerEntry>, String>,
) -> Seq<Operation>
    decreases listing, 0nat,
{
    match listing {
        Ok(entries) => planned_entries(pass, path, entries@, entries@.len()),
        Err(text) => seq![Operation::Fail(text@)],
    }
}

/// Why one of the first `n` entries cannot be read: the reason that a walk
/// meets first.
pub open spec fn entries_fault(entries: Seq<LayerEntry>, n: nat) -> Option<Seq<char>>
    decreases entries, n,
{
    if n == 0 || n > entries.len() {
        None
    } else {
        match entries_fault(entries, (n - 1) as nat) {
            Some(text) => Some(text),
            None => match entries[n - 1] {
                LayerEntry::Directory(_, listing) => listing_fault(listing),
                LayerEntry::Unreadable(text) => Some(text@),
                _ => None,
            },
        }
    }
}

/// Why something below a directory cannot be read, if something cannot.
pub open spec fn listing_fault(listing: Result<Vec<LayerEntry>, String>) -> Option<Seq<char>>
    decreases listing, 0nat,
{
    match listing {
        Ok(entries) => entries_fault(entries@, entries@.len()),
        Err(text) => Some(text@),
    }
}

/// Say why something below a directory cannot be read, if something cannot.
fn fault_in(listing: &Result<Vec<LayerEntry>, String>) -> (fault: Option<String>)
    ensures
        match fault {
            Some(text) => listing_fault(*listing) == Some(text@),
            None => listing_fault(*listing) is None,
        },
    decreases *listing,
{
    match listing {
        Err(text) => Some(text.clone()),
        Ok(entries) => {
            let mut i: usize = 0;
            while i < entries.len()
                invariant
                    i <= entries.len(),
                    *listing == Ok::<Vec<LayerEntry>, String>(*entries),
                    entries_fault(entries@, i as nat) is None,
                decreases entries.len() - i,
            {
                let fault = match &entries[i] {
                    LayerEntry::Directory(_, inner) => {
                        proof {
                            assert(decreases_to!(*listing => listing->Ok_0));
                            assert(decreases_to!(entries@ => entries@[i as int]));
                            assert(decreases_to!(entries@[i as int] => *inner));
                        }
                        fault_in(inner)
                    },
                    LayerEntry::Unreadable(text) => Some(text.clone()),
                    _ => None,
                };
                if let Some(text) = fault {
                    proof {
                        lemma_first_fault_stands(entries@, (i + 1) as nat, entries@.len());
                    }
                    return Some(text);
                }
                i = i + 1;
            }
            None
        },
    }
}

proof fn lemma_first_fault_stands(entries: Seq<LayerEntry>, m: nat, n: nat)
    requires
        m <= n <= entries.len(),
        entries_fault(entries, m) is Some,
    ensures
        entries_fault(entries, n) == entries_fault(entries, m),
    decreases n,
{
    if m < n {
        lemma_first_fault_stands(entries, m, (n - 1) as nat);
    }
}

/// A copy of a path.
fn copied(path: &Vec<Vec<u8>>) -> (copy: Vec<Vec<u8>>)
    ensures
        byte_views(copy@) == byte_views(path@),
{
    let mut copy: Vec<Vec<u8>> = Vec::new();
    let mut i: usize = 0;
    assert(byte_views(copy@) =~= byte_views(path@).take(0));
    while i < path.len()
        invariant
            i <= path.len(),
            byte_views(copy@) == byte_views(path@).take(i as int),
        decreases path.len() - i,
    {
        let ghost so_far = byte_views(copy@);
        copy.push(slice_to_vec(path[i].as_slice()));
        assert(byte_views(copy@) =~= so_far.push(path@[i as int]@));
        assert(byte_views(copy@) =~= byte_views(path@).take(i + 1));
        i = i + 1;
    }
    assert(byte_views(path@).take(i as int) =~= byte_views(path@));
    copy
}

/// The path of `name` in the directory at `path`.
fn below(path: &Vec<Vec<u8>>, name: &Vec<u8>) -> (result: Vec<Vec<u8>>)
    ensures
        byte_views(result@) == byte_views(path@).push(name@),
{
    let mut result = copied(path);
    let ghost before = byte_views(result@);
    result.push(slice_to_vec(name.as_slice()));
    assert(byte_views(result@) =~= before.push(name@));
    result
}

/// Add an operation to a plan.
fn add_to(plan: &mut Vec<FileOp>, operation: FileOp)
    ensures
        operations(final(plan)@) == operations(old(plan)@).push(operation@),
{
    let ghost before = operations(plan@);
    plan.push(operation);
    assert(operations(plan@) =~= before.push(operation@));
}

/// Plan what is done on entering a directory.
fn enter(pass: Pass, path: &Vec<Vec<u8>>, plan: &mut Vec<FileOp>)
    ensures
        operations(final(plan)@) == operations(old(plan)@) + on_directory(pass, byte_views(path@)),
{
    let ghost before = operations(plan@);
    match pass {
        Pass::Stage => add_to(plan, FileOp::KeepDirectory(copied(path))),
        Pass::Move => add_to(plan, FileOp::AddDirectory(copied(path))),
        _ => add_to(plan, FileOp::MakeDirectory(Layer::Merged, copied(path))),
    }
    assert(operations(plan@) =~= before + on_directory(pass, byte_views(path@)));
}

/// Plan what is done with a file.
fn visit(pass: Pass, path: Vec<Vec<u8>>, plan: &mut Vec<FileOp>)
    ensures
        operations(final(plan)@) == operations(old(plan)@) + on_file(pass, byte_views(path@)),
{
    let ghost before = operations(plan@);
    let ghost at = byte_views(path@);
    match pass {
        Pass::Mirror => add_to(plan, FileOp::Link(path)),
        Pass::Overlay => {
            add_to(plan, FileOp::Unlink(copied(&path)));
            add_to(plan, FileOp::Copy(path));
        },
        Pass::Refresh => add_to(plan, FileOp::Refresh(path)),
        Pass::Stage => {
            add_to(plan, FileOp::Stage(copied(&path)));
            add_to(plan, FileOp::Keep(path));
        },
        Pass::Move => add_to(plan, FileOp::Move(path)),
    }
    assert(operations(plan@) =~= before + on_file(pass, at));
}

/// Plan what is done in the directory at `path`.
fn plan_directory(
    pass: Pass,
    path: &Vec<Vec<u8>>,
    listing: &Result<Vec<LayerEntry>, String>,
    plan: &mut Vec<FileOp>,
)
    ensures
        operations(final(plan)@) == operations(old(plan)@) + planned(
            pass,
            byte_views(path@),
            *listing,
        ),
    decreases *listing,
{
    let ghost before = operations(plan@);
    let ghost at = byte_views(path@);
    match listing {
        Err(text) => {
            add_to(plan, FileOp::Fail(text.clone()));
            assert(operations(plan@) =~= before + planned(pass, at, *listing));
        },
        Ok(entries) => {
            let mut i: usize = 0;
            assert(before + planned_entries(pass, at, entries@, 0) =~= before);
            while i < entries.len()
                invariant
                    i <= entries.len(),
                    *listing == Ok::<Vec<LayerEntry>, String>(*entries),
                    at == byte_views(path@),
                    operations(plan@) == before + planned_entries(pass, at, entries@, i as nat),
                decreases entries.len() - i,
            {
                let ghost known = planned_entries(pass, at, entries@, i as nat);
                match &entries[i] {
                    LayerEntry::Directory(name, inner) => {
                        let inside = below(path, name);
                        enter(pass, &inside, plan);
                        proof {
                            assert(decreases_to!(*listing => listing->Ok_0));
                            assert(decreases_to!(entries@ => entries@[i as int]));
                            assert(decreases_to!(entries@[i as int] => *inner));
                        }
                        plan_directory(pass, &inside, inner, plan);
                        assert(operations(plan@) =~= before + (known + (on_directory(
                            pass,
                            at.push(name@),
                        ) + planned(pass, at.push(name@), *inner))));
                    },
                    LayerEntry::File(name) => {
                        visit(pass, below(path, name), plan);
                        assert(operations(plan@) =~= before + (known + on_file(
                            pass,
                            at.push(name@),
                        )));
                    },
                    LayerEntry::Unreadable(text) => {
                        add_to(plan, FileOp::Fail(text.clone()));
                        assert(operations(plan@) =~= before + (known + seq![
                            Operation::Fail(text@),
                        ]));
                    },
                    LayerEntry::Other => {
                        assert(known + Seq::<Operation>::empty() =~= known);
                    },
                }
                i = i + 1;
            }
        },
    }
}

/// How long a file is and when it was last changed, if that can be told.
#[derive(Debug, Clone, Copy)]
pub struct FileStamp {
    pub len: u64,
    pub modified: Option<i128>,
}

/// Whether a copy is out of date: it has another length, or it is not known to
/// have been changed at the same time.
pub open spec fn is_stale(source: FileStamp, target: FileStamp) -> bool {
    !(source.len == target.len && source.modified is Some && source.modified == target.modified)
}

/// Whether a copy is out of date.
pub fn needs_update(source: &FileStamp, target: &FileStamp) -> (result: bool)
    ensures
        result == is_stale(*source, *target),
        !result <==> source.len == target.len && source.modified is Some && target.modified is Some
            && source.modified->0 == target.modified->0,
{
    if source.len != target.len {
        return true;
    }
    match (source.modified, target.modified) {
        (Some(a), Some(b)) => a != b,
        _ => true,
    }
}

/// Whether a file of the upper layer is copied to the merged one: always, or if
/// the merged one is missing or out of date.
pub fn should_copy(compare: bool, source: &FileStamp, target: Option<FileStamp>) -> (result: bool)
    ensures
        result == (!compare || target is None || is_stale(*source, target->0)),
        !result <==> compare && target is Some && source.len == target->0.len && source.modified is Some
            && target->0.modified is Some && source.modified->0 == target->0.modified->0,
{
    if !compare {
        return true;
    }
    match target {
        Some(target) => needs_update(source, &target),
        None => true,
    }
}

/// A copy is up to date only if it has the length and the very modification time
/// of its source, both of them known. A source that is newer and one that is
/// older are alike, so that it does not matter which is which.
pub proof fn law_stale_copies(a: FileStamp, b: FileStamp)
    ensures
        a.len != b.len ==> is_stale(a, b),
        a.modified is None || b.modified is None ==> is_stale(a, b),
        a.modified is Some && b.modified is Some && a.modified->0 < b.modified->0 ==> is_stale(a, b)
            && is_stale(b, a),
        is_stale(a, b) == is_stale(b, a),
        is_stale(a, a) <==> a.modified is None,
        !is_stale(a, b) ==> a.len == b.len && a.modified == b.modified && a.modified is Some,
        a.len == b.len && a.modified is Some && a.modified == b.modified ==> !is_stale(a, b),
{
}

/// What a file that may be out of date asks for: it is removed from the merged
/// layer and copied anew, so that a link to the lower layer is never written
/// through.
pub fn refreshing(path: &Vec<Vec<u8>>, source: &FileStamp, target: Option<FileStamp>) -> (plan: Vec<FileOp>)
    ensures
        operations(plan@) == if target is None || is_stale(*source, target->0) {
            on_file(Pass::Overlay, byte_views(path@))
        } else {
            Seq::empty()
        },
        operations(plan@) == if target is Some && source.len == target->0.len && source.modified is Some
            && target->0.modified is Some && source.modified->0 == target->0.modified->0 {
            Seq::empty()
        } else {
            seq![Operation::Unlink(byte_views(path@)), Operation::Copy(byte_views(path@))]
        },
{
    let mut plan: Vec<FileOp> = Vec::new();
    assert(operations(plan@) =~= Seq::<Operation>::empty());
    if should_copy(true, source, target) {
        visit(Pass::Overlay, copied(path), &mut plan);
        assert(operations(plan@) =~= on_file(Pass::Overlay, byte_views(path@)));
    }
    plan
}

/// The directories of a workspace are made.
pub open spec fn initialized() -> Seq<Operation> {
    seq![
        Operation::MakeDirectory(Layer::Upper, Seq::empty()),
        Operation::MakeDirectory(Layer::Merged, Seq::empty()),
        Operation::MakeDirectory(Layer::Work, Seq::empty()),
    ]
}

/// A layer is laid over the merged one, if it is there.
pub open spec fn laid_over(
    pass: Pass,
    listing: Option<Result<Vec<LayerEntry>, String>>,
) -> Seq<Operation> {
    match listing {
        Some(listing) => on_directory(pass, Seq::empty()) + planned(pass, Seq::empty(), listing),
        None => Seq::empty(),
    }
}

/// The merged layer is made anew from the lower and the upper one.
pub open spec fn mounted(
    lower: Result<Vec<LayerEntry>, String>,
    upper: Option<Result<Vec<LayerEntry>, String>>,
) -> Seq<Operation> {
    initialized() + seq![
        Operation::Discard(Layer::Merged),
        Operation::MakeDirectory(Layer::Merged, Seq::empty()),
    ] + laid_over(Pass::Mirror, Some(lower)) + laid_over(Pass::Overlay, upper)
}

/// The upper layer is staged, and what it will replace is kept.
pub open spec fn prepared(upper: Result<Vec<LayerEntry>, String>) -> Seq<Operation> {
    seq![Operation::Reset(Layer::Work)] + planned(Pass::Stage, Seq::empty(), upper)
}

/// What was staged is moved to the lower layer, and the upper one is laid over
/// the merged one and emptied.
pub open spec fn put_in_place(upper: Result<Vec<LayerEntry>, String>) -> Seq<Operation> {
    planned(Pass::Move, Seq::empty(), upper) + planned(Pass::Overlay, Seq::empty(), upper) + seq![
        Operation::Reset(Layer::Upper),
    ]
}

/// The upper layer is published and emptied. If some of it cannot be read,
/// nothing is done.
pub open spec fn committed(upper: Result<Vec<LayerEntry>, String>) -> Seq<Operation> {
    match listing_fault(upper) {
        Some(text) => seq![Operation::Fail(text)],
        None => prepared(upper) + put_in_place(upper),
    }
}

/// The work layer is emptied.
pub open spec fn tidied() -> Seq<Operation> {
    seq![Operation::Reset(Layer::Work)]
}

/// What takes back an operation on the lower layer, if it is one.
pub open spec fn undoing(operation: Operation) -> Seq<Operation> {
    match operation {
        Operation::Move(path) => seq![Operation::Restore(path)],
        Operation::AddDirectory(path) => seq![Operation::DropDirectory(path)],
        _ => Seq::empty(),
    }
}

/// What was done to the lower layer is taken back, the last of it first, so that
/// a directory is empty when it is dropped.
pub open spec fn taken_back(done: Seq<Operation>) -> Seq<Operation>
    decreases done.len(),
{
    if done.len() == 0 {
        Seq::empty()
    } else {
        undoing(done.last()) + taken_back(done.drop_last())
    }
}

/// The merged layer and the work directory are removed.
pub open spec fn torn_down() -> Seq<Operation> {
    seq![Operation::Discard(Layer::Merged), Operation::Discard(Layer::Work)]
}

/// Plan the laying of a layer over the merged one.
fn lay_over(pass: Pass, listing: &Result<Vec<LayerEntry>, String>, plan: &mut Vec<FileOp>)
    ensures
        operations(final(plan)@) == operations(old(plan)@) + laid_over(pass, Some(*listing)),
{
    let ghost before = operations(plan@);
    let root: Vec<Vec<u8>> = Vec::new();
    assert(byte_views(root@) =~= Seq::<Seq<u8>>::empty());
    enter(pass, &root, plan);
    plan_directory(pass, &root, listing, plan);
    assert(operations(plan@) =~= before + laid_over(pass, Some(*listing)));
}

/// Plans the file operations of a workspace. A layer is given by what listing
/// its root gave.
pub struct CowEngine;

impl CowEngine {
    /// Make the directories of a workspace. There has to be a lower layer.
    pub fn initialize(config: &VirtualEnvConfig, lower_exists: bool) -> (result: Result<
        Vec<FileOp>,
        VirtualizerError,
    >)
        ensures
            match result {
                Ok(plan) => lower_exists && operations(plan@) == initialized() && operations(plan@)
                    == seq![
                    Operation::MakeDirectory(Layer::Upper, Seq::empty()),
                    Operation::MakeDirectory(Layer::Merged, Seq::empty()),
                    Operation::MakeDirectory(Layer::Work, Seq::empty()),
                ],
                Err(error) => !lower_exists && error.is_fault(
                    "lower directory does not exist: "@ + lossy(config.lower_dir@),
                ),
            },
    {
        if !lower_exists {
            return Err(
                VirtualizerError::SystemFault(
                    joined("lower directory does not exist: ", &shown(config.lower_dir.as_slice())),
                ),
            );
        }
        let root: Vec<Vec<u8>> = Vec::new();
        assert(byte_views(root@) =~= Seq::<Seq<u8>>::empty());
        let mut plan: Vec<FileOp> = Vec::new();
        assert(operations(plan@) =~= Seq::<Operation>::empty());
        add_to(&mut plan, FileOp::MakeDirectory(Layer::Upper, copied(&root)));
        add_to(&mut plan, FileOp::MakeDirectory(Layer::Merged, copied(&root)));
        add_to(&mut plan, FileOp::MakeDirectory(Layer::Work, copied(&root)));
        assert(operations(plan@) =~= initialized());
        Ok(plan)
    }

    /// Make the merged layer anew from the lower and the upper one.
    pub fn mount(
        config: &VirtualEnvConfig,
        lower_exists: bool,
        lower: &Result<Vec<LayerEntry>, String>,
        upper: &Option<Result<Vec<LayerEntry>, String>>,
    ) -> (result: Result<Vec<FileOp>, VirtualizerError>)
        ensures
            match result {
                Ok(plan) => lower_exists && operations(plan@) == mounted(*lower, *upper),
                Err(error) => !lower_exists && error.is_fault(
                    "lower directory does not exist: "@ + lossy(config.lower_dir@),
                ),
            },
    {
        let mut plan = match Self::initialize(config, lower_exists) {
            Ok(plan) => plan,
            Err(error) => return Err(error),
        };
        let root: Vec<Vec<u8>> = Vec::new();
        assert(byte_views(root@) =~= Seq::<Seq<u8>>::empty());
        add_to(&mut plan, FileOp::Discard(Layer::Merged));
        add_to(&mut plan, FileOp::MakeDirectory(Layer::Merged, root));
        lay_over(Pass::Mirror, lower, &mut plan);
        if let Some(upper) = upper {
            lay_over(Pass::Overlay, upper, &mut plan);
        }
        assert(operations(plan@) =~= mounted(*lower, *upper));
        Ok(plan)
    }

    /// Mirror the lower layer in the merged one.
    pub fn mirror(lower: &Result<Vec<LayerEntry>, String>) -> (plan: Vec<FileOp>)
        ensures
            operations(plan@) == laid_over(Pass::Mirror, Some(*lower)),
    {
        let mut plan: Vec<FileOp> = Vec::new();
        lay_over(Pass::Mirror, lower, &mut plan);
        assert(operations(plan@) =~= laid_over(Pass::Mirror, Some(*lower)));
        plan
    }

    /// Give the merged layer copies of everything in the upper one.
    pub fn duplicate(upper: &Result<Vec<LayerEntry>, String>) -> (plan: Vec<FileOp>)
        ensures
            operations(plan@) == laid_over(Pass::Overlay, Some(*upper)),
    {
        let mut plan: Vec<FileOp> = Vec::new();
        lay_over(Pass::Overlay, upper, &mut plan);
        assert(operations(plan@) =~= laid_over(Pass::Overlay, Some(*upper)));
        plan
    }

    /// Bring the merged layer up to date with the upper one.
    pub fn synchronize_upper(upper: &Option<Result<Vec<LayerEntry>, String>>) -> (plan: Vec<FileOp>)
        ensures
            operations(plan@) == laid_over(Pass::Refresh, *upper),
    {
        let mut plan: Vec<FileOp> = Vec::new();
        if let Some(upper) = upper {
            lay_over(Pass::Refresh, upper, &mut plan);
        }
        assert(operations(plan@) =~= laid_over(Pass::Refresh, *upper));
        plan
    }

    /// Publish the upper layer and empty it. Everything is staged in the work
    /// layer before anything of the lower one is replaced, and nothing is done
    /// at all if some of the upper layer cannot be read. The work layer is left
    /// for `tidy`.
    pub fn commit(upper: &Result<Vec<LayerEntry>, String>) -> (plan: Vec<FileOp>)
        ensures
            operations(plan@) == committed(*upper),
    {
        let root: Vec<Vec<u8>> = Vec::new();
        assert(byte_views(root@) =~= Seq::<Seq<u8>>::empty());
        let mut plan: Vec<FileOp> = Vec::new();
        assert(operations(plan@) =~= Seq::<Operation>::empty());
        if let Some(text) = fault_in(upper) {
            add_to(&mut plan, FileOp::Fail(text));
            assert(operations(plan@) =~= committed(*upper));
            return plan;
        }
        add_to(&mut plan, FileOp::Reset(Layer::Work));
        plan_directory(Pass::Stage, &root, upper, &mut plan);
        plan_directory(Pass::Move, &root, upper, &mut plan);
        plan_directory(Pass::Overlay, &root, upper, &mut plan);
        add_to(&mut plan, FileOp::Reset(Layer::Upper));
        assert(operations(plan@) =~= committed(*upper));
        plan
    }

    /// Empty the work layer after a commit. The commit is done by then, whatever
    /// comes of this.
    pub fn tidy() -> (plan: Vec<FileOp>)
        ensures
            operations(plan@) == tidied(),
            operations(plan@) == seq![Operation::Reset(Layer::Work)],
    {
        let mut plan: Vec<FileOp> = Vec::new();
        add_to(&mut plan, FileOp::Reset(Layer::Work));
        assert(operations(plan@) =~= tidied());
        plan
    }

    /// Take back what the first `done` operations of a plan did to the lower
    /// layer.
    pub fn take_back(plan: &Vec<FileOp>, done: usize) -> (undo: Vec<FileOp>)
        requires
            done <= plan.len(),
        ensures
            operations(undo@) == taken_back(operations(plan@).take(done as int)),
    {
        let ghost all = operations(plan@);
        let mut undo: Vec<FileOp> = Vec::new();
        let mut i: usize = done;
        assert(operations(undo@) + taken_back(all.take(i as int)) =~= taken_back(
            all.take(done as int),
        ));
        while i > 0
            invariant
                i <= done <= plan.len(),
                all == operations(plan@),
                operations(undo@) + taken_back(all.take(i as int)) == taken_back(
                    all.take(done as int),
                ),
            decreases i,
        {
            let ghost before = operations(undo@);
            let ghost rest = taken_back(all.take(i - 1));
            assert(all.take(i as int).drop_last() =~= all.take(i - 1));
            assert(all.take(i as int).last() == plan@[i - 1]@);
            i = i - 1;
            match &plan[i] {
                FileOp::Move(path) => add_to(&mut undo, FileOp::Restore(copied(path))),
                FileOp::AddDirectory(path) => add_to(&mut undo, FileOp::DropDirectory(copied(path))),
                _ => {},
            }
            assert(operations(undo@) =~= before + undoing(plan@[i as int]@));
            assert(operations(undo@) + rest =~= before + (undoing(plan@[i as int]@) + rest));
        }
        assert(all.take(0) =~= Seq::<Operation>::empty());
        assert(operations(undo@) + taken_back(all.take(0)) =~= operations(undo@));
        undo
    }

    /// Remove the merged layer and the work directory.
    pub fn teardown() -> (plan: Vec<FileOp>)
        ensures
            operations(plan@) == torn_down(),
            operations(plan@) == seq![
                Operation::Discard(Layer::Merged),
                Operation::Discard(Layer::Work),
            ],
    {
        let mut plan: Vec<FileOp> = Vec::new();
        add_to(&mut plan, FileOp::Discard(Layer::Merged));
        add_to(&mut plan, FileOp::Discard(Layer::Work));
        assert(operations(plan@) =~= torn_down());
        plan
    }
}

/// What is left of a path below a directory, if it stands below it.
pub open spec fn stripped(path: Seq<Seq<u8>>, directory: Seq<Seq<u8>>) -> Option<Seq<Seq<u8>>> {
    if directory.is_prefix_of(path) {
        Some(path.skip(directory.len() as int))
    } else {
        None
    }
}

/// What is left of a path below a directory, if it stands below it. Paths are
/// given by their components.
pub fn strip(path: &Vec<Vec<u8>>, directory: &Vec<Vec<u8>>) -> (rest: Option<Vec<Vec<u8>>>)
    ensures
        match rest {
            Some(rest) => stripped(byte_views(path@), byte_views(directory@)) == Some(
                byte_views(rest@),
            ),
            None => stripped(byte_views(path@), byte_views(directory@)) is None,
        },
{
    let ghost all = byte_views(path@);
    let ghost prefix = byte_views(directory@);
    if path.len() < directory.len() {
        return None;
    }
    let mut i: usize = 0;
    while i < directory.len()
        invariant
            i <= directory.len() <= path.len(),
            all == byte_views(path@),
            prefix == byte_views(directory@),
            forall|j: int| 0 <= j < i ==> #[trigger] all[j] == prefix[j],
        decreases directory.len() - i,
    {
        if !same_bytes(&path[i], &directory[i]) {
            proof {
                assert(all[i as int] != prefix[i as int]);
                if prefix.is_prefix_of(all) {
                    assert(all.subrange(0, prefix.len() as int)[i as int] == all[i as int]);
                }
            }
            return None;
        }
        i = i + 1;
    }
    assert(all.subrange(0, prefix.len() as int) =~= prefix);
    let mut rest: Vec<Vec<u8>> = Vec::new();
    let ghost below_paths = all.skip(prefix.len() as int);
    assert(byte_views(rest@) =~= below_paths.take(0));
    while i < path.len()
        invariant
            directory.len() <= i <= path.len(),
            all == byte_views(path@),
            below_paths == all.skip(directory@.len() as int),
            byte_views(rest@) == below_paths.take(i - directory@.len()),
        decreases path.len() - i,
    {
        let ghost so_far = byte_views(rest@);
        rest.push(slice_to_vec(path[i].as_slice()));
        proof {
            assert(below_paths[i - directory@.len()] == path@[i as int]@);
            assert(byte_views(rest@) =~= so_far.push(path@[i as int]@));
            assert(byte_views(rest@) =~= below_paths.take(i + 1 - directory@.len()));
        }
        i = i + 1;
    }
    assert(below_paths.take(i - directory@.len()) =~= below_paths);
    Some(rest)
}

/// What a change at `path` asks for: a file of the upper layer is copied to the
/// merged one. Paths are given by their components.
pub fn on_change(upper: &Vec<Vec<u8>>, path: &Vec<Vec<u8>>, is_file: bool) -> (plan: Vec<FileOp>)
    ensures
        operations(plan@) == match stripped(byte_views(path@), byte_views(upper@)) {
            Some(rest) => if is_file {
                on_file(Pass::Overlay, rest)
            } else {
                Seq::empty()
            },
            None => Seq::empty(),
        },
        !is_file ==> plan@.len() == 0,
        forall|rest: Seq<Seq<u8>>|
            is_file && byte_views(path@) == #[trigger] (byte_views(upper@) + rest) ==> operations(plan@)
                == seq![Operation::Unlink(rest), Operation::Copy(rest)],
        plan@.len() > 0 ==> byte_views(upper@).is_prefix_of(byte_views(path@)),
{
    let mut plan: Vec<FileOp> = Vec::new();
    assert(operations(plan@) =~= Seq::<Operation>::empty());
    proof {
        assert forall|rest: Seq<Seq<u8>>|
            byte_views(path@) == #[trigger] (byte_views(upper@) + rest) implies stripped(
            byte_views(path@),
            byte_views(upper@),
        ) == Some(rest) by {
            law_stripped(byte_views(path@), byte_views(upper@), rest);
        }
    }
    if is_file {
        if let Some(rest) = strip(path, upper) {
            let ghost at = byte_views(rest@);
            visit(Pass::Overlay, rest, &mut plan);
            assert(operations(plan@) =~= on_file(Pass::Overlay, at));
        }
    }
    plan
}

/// A path below a directory is the directory's path and what is left of it. What
/// does not begin with the directory's path is not below it.
pub proof fn law_stripped(path: Seq<Seq<u8>>, directory: Seq<Seq<u8>>, rest: Seq<Seq<u8>>)
    ensures
        stripped(directory + rest, directory) == Some(rest),
        stripped(path, directory) is Some ==> path == directory + stripped(path, directory)->0,
        stripped(path, directory) is None ==> path != directory + rest,
{
    let whole = directory + rest;
    assert(whole.subrange(0, directory.len() as int) =~= directory);
    assert(whole.skip(directory.len() as int) =~= rest);
    if let Some(left) = stripped(path, directory) {
        assert(path =~= directory + left) by {
            assert(path.subrange(0, directory.len() as int) == directory);
            assert forall|i: int| 0 <= i < directory.len() implies path[i] == directory[i] by {
                assert(path.subrange(0, directory.len() as int)[i] == path[i]);
            }
        }
    }
}

} // verus!
