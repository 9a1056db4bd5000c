//! What the plans of the copy-on-write engine do to the files of a workspace.
//!
//! Files are told apart by their paths below the root of a layer. Where the host
//! links a file of the lower layer, the merged layer shows that very file, and
//! what is written to one is written to both.

use vstd::prelude::*;

use crate::virtualization::engine::{
    committed, entries_fault, initialized, laid_over, listing_fault, mounted, on_directory, on_file, planned, planned_entries,
    prepared, put_in_place, taken_back, tidied, torn_down, undoing, FileStamp, Layer, LayerEntry, Operation, Pass,
};

verus! {

/// The files of a workspace, by their paths below the root of each layer, and
/// the directories of its lower layer.
pub struct Files<C> {
    pub lower: Map<Seq<Seq<u8>>, C>,
    /// The directories of the lower layer.
    pub folders: Set<Seq<Seq<u8>>>,
    pub upper: Map<Seq<Seq<u8>>, C>,
    pub merged: Map<Seq<Seq<u8>>, C>,
    /// What has been staged since the work layer was emptied.
    pub staged: Map<Seq<Seq<u8>>, C>,
    /// What has been kept since the work layer was emptied.
    pub kept: Map<Seq<Seq<u8>>, C>,
    /// The directories that have been kept since the work layer was emptied.
    pub kept_folders: Set<Seq<Seq<u8>>>,
    /// The paths at which the merged layer's file is the lower layer's: what is
    /// written to one is written to both.
    pub linked: Set<Seq<Seq<u8>>>,
}

/// What the host has to say about the files of a workspace.
pub struct Host {
    /// The paths at which the merged file is up to date.
    pub fresh: Set<Seq<Seq<u8>>>,
    /// The paths at which the host can link the lower layer's file.
    pub links: Set<Seq<Seq<u8>>>,
}

/// The files of a workspace without that of the merged layer at `path`.
pub open spec fn unlinked<C>(files: Files<C>, path: Seq<Seq<u8>>) -> Files<C> {
    Files { merged: files.merged.remove(path), linked: files.linked.remove(path), ..files }
}

/// The files of a workspace after the upper layer's file at `path` was written
/// to the merged one, and through a link to the lower one.
pub open spec fn written<C>(files: Files<C>, path: Seq<Seq<u8>>) -> Files<C> {
    Files {
        merged: files.merged.insert(path, files.upper[path]),
        lower: if files.linked.contains(path) {
            files.lower.insert(path, files.upper[path])
        } else {
            files.lower
        },
        ..files
    }
}

/// The files of a workspace after an operation that went well.
pub open spec fn performed<C>(files: Files<C>, operation: Operation, host: Host) -> Files<C> {
    match operation {
        Operation::MakeDirectory(layer, path) => if layer is Lower {
            Files { folders: files.folders.insert(path), ..files }
        } else {
            files
        },
        Operation::Discard(layer) => emptied(files, layer),
        Operation::Reset(layer) => emptied(files, layer),
        Operation::Link(path) => Files {
            merged: files.merged.insert(path, files.lower[path]),
            linked: if host.links.contains(path) {
                files.linked.insert(path)
            } else {
                files.linked.remove(path)
            },
            ..files
        },
        Operation::Unlink(path) => unlinked(files, path),
        Operation::Copy(path) => written(files, path),
        Operation::Refresh(path) => if host.fresh.contains(path) && files.merged.contains_key(
            path,
        ) {
            files
        } else {
            written(unlinked(files, path), path)
        },
        Operation::KeepDirectory(path) => if files.folders.contains(path) {
            Files { kept_folders: files.kept_folders.insert(path), ..files }
        } else {
            files
        },
        Operation::AddDirectory(path) => Files { folders: files.folders.insert(path), ..files },
        Operation::DropDirectory(path) => if files.kept_folders.contains(path) {
            files
        } else {
            Files { folders: files.folders.remove(path), ..files }
        },
        Operation::Stage(path) => Files {
            staged: files.staged.insert(path, files.upper[path]),
            ..files
        },
        Operation::Keep(path) => if files.lower.contains_key(path) {
            Files { kept: files.kept.insert(path, files.lower[path]), ..files }
        } else {
            files
        },
        Operation::Move(path) => Files {
            lower: files.lower.insert(path, files.staged[path]),
            linked: files.linked.remove(path),
            ..files
        },
        Operation::Restore(path) => Files {
            lower: if files.kept.contains_key(path) {
                files.lower.insert(path, files.kept[path])
            } else {
                files.lower.remove(path)
            },
            linked: files.linked.remove(path),
            ..files
        },
        Operation::Fail(_) => files,
    }
}

/// The files of a workspace without those of a layer.
pub open spec fn emptied<C>(files: Files<C>, layer: Layer) -> Files<C> {
    match layer {
        Layer::Lower => Files {
            lower: Map::empty(),
            folders: Set::empty(),
            linked: Set::empty(),
            ..files
        },
        Layer::Upper => Files { upper: Map::empty(), ..files },
        Layer::Merged => Files { merged: Map::empty(), linked: Set::empty(), ..files },
        Layer::Work => Files {
            staged: Map::empty(),
            kept: Map::empty(),
            kept_folders: Set::empty(),
            ..files
        },
    }
}

/// The files of a workspace after a plan all of whose operations went well.
pub open spec fn carried_out<C>(files: Files<C>, plan: Seq<Operation>, host: Host) -> Files<C>
    decreases plan.len(),
{
    if plan.len() == 0 {
        files
    } else {
        performed(carried_out(files, plan.drop_last(), host), plan.last(), host)
    }
}

/// What a walk meets.
pub enum Step {
    Directory(Seq<Seq<u8>>),
    File(Seq<Seq<u8>>),
}

/// What a walk meets among the first `n` entries of the directory at `path`.
pub open spec fn steps_in_entries(
    path: Seq<Seq<u8>>,
    entries: Seq<LayerEntry>,
    n: nat,
) -> Seq<Step>
    decreases entries, n,
{
    if n == 0 || n > entries.len() {
        Seq::empty()
    } else {
        steps_in_entries(path, entries, (n - 1) as nat) + match entries[n - 1] {
            LayerEntry::Directory(name, listing) => seq![Step::Directory(path.push(name@))]
                + steps_in(path.push(name@), listing),
            LayerEntry::File(name) => seq![Step::File(path.push(name@))],
            _ => Seq::empty(),
        }
    }
}

/// What a walk meets in the directory at `path`, in order.
pub open spec fn steps_in(
    path: Seq<Seq<u8>>,
    listing: Result<Vec<LayerEntry>, String>,
) -> Seq<Step>
    decreases listing, 0nat,
{
    match listing {
        Ok(entries) => steps_in_entries(path, entries@, entries@.len()),
        Err(_) => Seq::empty(),
    }
}

/// A layer has a file at `path`, says its listing.
pub open spec fn has_file(listing: Result<Vec<LayerEntry>, String>, path: Seq<Seq<u8>>) -> bool {
    steps_in(Seq::empty(), listing).contains(Step::File(path))
}

/// A layer has a directory at `path`, says its listing.
pub open spec fn has_directory(
    listing: Result<Vec<LayerEntry>, String>,
    path: Seq<Seq<u8>>,
) -> bool {
    steps_in(Seq::empty(), listing).contains(Step::Directory(path))
}

/// The listing shows the files of a layer.
pub open spec fn shows<C>(
    listing: Result<Vec<LayerEntry>, String>,
    files: Map<Seq<Seq<u8>>, C>,
) -> bool {
    forall|path: Seq<Seq<u8>>| has_file(listing, path) <==> #[trigger] files.contains_key(path)
}

/// The listing, if there is one, shows the files of a layer; a layer that is
/// missing has none.
pub open spec fn shows_layer<C>(
    listing: Option<Result<Vec<LayerEntry>, String>>,
    files: Map<Seq<Seq<u8>>, C>,
) -> bool {
    match listing {
        Some(listing) => shows(listing, files),
        None => forall|path: Seq<Seq<u8>>| !#[trigger] files.contains_key(path),
    }
}

proof fn lemma_carried_on<C>(
    files: Files<C>,
    first: Seq<Operation>,
    second: Seq<Operation>,
    host: Host,
)
    ensures
        carried_out(files, first + second, host) == carried_out(
            carried_out(files, first, host),
            second,
            host,
        ),
    decreases second.len(),
{
    if second.len() == 0 {
        assert(first + second =~= first);
    } else {
        assert((first + second).drop_last() =~= first + second.drop_last());
        lemma_carried_on(files, first, second.drop_last(), host);
    }
}

proof fn lemma_one<C>(files: Files<C>, operation: Operation, host: Host)
    ensures
        carried_out(files, seq![operation], host) == performed(files, operation, host),
{
    assert(seq![operation].drop_last() =~= Seq::<Operation>::empty());
    assert(carried_out(files, seq![operation].drop_last(), host) == files);
}

proof fn lemma_two<C>(files: Files<C>, first: Operation, second: Operation, host: Host)
    ensures
        carried_out(files, seq![first, second], host) == performed(
            performed(files, first, host),
            second,
            host,
        ),
{
    assert(seq![first, second].drop_last() =~= seq![first]);
    lemma_one(files, first, host);
}

/// What a walk does at a step.
spec fn at_step(pass: Pass, step: Step) -> Seq<Operation> {
    match step {
        Step::Directory(path) => on_directory(pass, path),
        Step::File(path) => on_file(pass, path),
    }
}

/// What a step of a walk does to the files of a workspace.
spec fn after_step<C>(pass: Pass, files: Files<C>, step: Step, host: Host) -> Files<C> {
    match step {
        Step::Directory(path) => match pass {
            Pass::Stage => performed(files, Operation::KeepDirectory(path), host),
            Pass::Move => performed(files, Operation::AddDirectory(path), host),
            _ => files,
        },
        Step::File(path) => match pass {
            Pass::Mirror => performed(files, Operation::Link(path), host),
            Pass::Overlay => written(unlinked(files, path), path),
            Pass::Refresh => performed(files, Operation::Refresh(path), host),
            Pass::Stage => performed(
                performed(files, Operation::Stage(path), host),
                Operation::Keep(path),
                host,
            ),
            Pass::Move => performed(files, Operation::Move(path), host),
        },
    }
}

proof fn lemma_after_step<C>(pass: Pass, files: Files<C>, step: Step, host: Host)
    ensures
        carried_out(files, at_step(pass, step), host) == after_step(pass, files, step, host),
{
    match step {
        Step::Directory(path) => {
            assert(at_step(pass, step) =~= seq![at_step(pass, step)[0]]);
            lemma_one(files, at_step(pass, step)[0], host);
        },
        Step::File(path) => match pass {
            Pass::Mirror => lemma_one(files, Operation::Link(path), host),
            Pass::Overlay => lemma_two(files, Operation::Unlink(path), Operation::Copy(path), host),
            Pass::Refresh => lemma_one(files, Operation::Refresh(path), host),
            Pass::Stage => lemma_two(files, Operation::Stage(path), Operation::Keep(path), host),
            Pass::Move => lemma_one(files, Operation::Move(path), host),
        },
    }
}

/// What the steps of a walk do to the files of a workspace.
spec fn after_steps<C>(pass: Pass, files: Files<C>, steps: Seq<Step>, host: Host) -> Files<C>
    decreases steps.len(),
{
    if steps.len() == 0 {
        files
    } else {
        after_step(pass, after_steps(pass, files, steps.drop_last(), host), steps.last(), host)
    }
}

proof fn lemma_steps_on<C>(
    pass: Pass,
    files: Files<C>,
    first: Seq<Step>,
    second: Seq<Step>,
    host: Host,
)
    ensures
        after_steps(pass, files, first + second, host) == after_steps(
            pass,
            after_steps(pass, files, first, host),
            second,
            host,
        ),
    decreases second.len(),
{
    if second.len() == 0 {
        assert(first + second =~= first);
    } else {
        assert((first + second).drop_last() =~= first + second.drop_last());
        lemma_steps_on(pass, files, first, second.drop_last(), host);
    }
}

proof fn lemma_one_step<C>(pass: Pass, files: Files<C>, step: Step, host: Host)
    ensures
        after_steps(pass, files, seq![step], host) == after_step(pass, files, step, host),
{
    assert(seq![step].drop_last() =~= Seq::<Step>::empty());
    assert(after_steps(pass, files, seq![step].drop_last(), host) == files);
}

/// A walk does to the files of a workspace what its steps do.
proof fn lemma_walk<C>(
    pass: Pass,
    files: Files<C>,
    path: Seq<Seq<u8>>,
    listing: Result<Vec<LayerEntry>, String>,
    host: Host,
)
    ensures
        carried_out(files, planned(pass, path, listing), host) == after_steps(
            pass,
            files,
            steps_in(path, listing),
            host,
        ),
    decreases listing, 0nat,
{
    match listing {
        Ok(entries) => {
            lemma_walk_entries(pass, files, path, entries@, entries@.len(), host);
        },
        Err(text) => {
            lemma_one(files, Operation::Fail(text@), host);
        },
    }
}

proof fn lemma_walk_entries<C>(
    pass: Pass,
    files: Files<C>,
    path: Seq<Seq<u8>>,
    entries: Seq<LayerEntry>,
    n: nat,
    host: Host,
)
    requires
        n <= entries.len(),
    ensures
        carried_out(files, planned_entries(pass, path, entries, n), host) == after_steps(
            pass,
            files,
            steps_in_entries(path, entries, n),
            host,
        ),
    decreases entries, n,
{
    if n > 0 {
        let m = (n - 1) as nat;
        let first = planned_entries(pass, path, entries, m);
        let seen = steps_in_entries(path, entries, m);
        let middle = carried_out(files, first, host);
        lemma_walk_entries(pass, files, path, entries, m, host);
        match entries[n - 1] {
            LayerEntry::Directory(name, listing) => {
                let inside = path.push(name@);
                let step = Step::Directory(inside);
                let entering = on_directory(pass, inside);
                let rest = planned(pass, inside, listing);
                let entered = after_step(pass, middle, step, host);
                lemma_carried_on(files, first, entering + rest, host);
                lemma_carried_on(middle, entering, rest, host);
                lemma_after_step(pass, middle, step, host);
                lemma_walk(pass, entered, inside, listing, host);
                lemma_steps_on(pass, files, seen, seq![step] + steps_in(inside, listing), host);
                lemma_steps_on(pass, middle, seq![step], steps_in(inside, listing), host);
                lemma_one_step(pass, middle, step, host);
            },
            LayerEntry::File(name) => {
                let step = Step::File(path.push(name@));
                lemma_carried_on(files, first, at_step(pass, step), host);
                lemma_after_step(pass, middle, step, host);
                lemma_steps_on(pass, files, seen, seq![step], host);
                lemma_one_step(pass, middle, step, host);
            },
            LayerEntry::Unreadable(text) => {
                lemma_carried_on(files, first, seq![Operation::Fail(text@)], host);
                lemma_one(middle, Operation::Fail(text@), host);
                assert(seen + Seq::<Step>::empty() =~= seen);
            },
            LayerEntry::Other => {
                assert(first + Seq::<Operation>::empty() =~= first);
                assert(seen + Seq::<Step>::empty() =~= seen);
            },
        }
    }
}

/// A list with one more item holds that one too.
proof fn lemma_one_more<A>(list: Seq<A>)
    requires
        list.len() > 0,
    ensures
        forall|item: A| #[trigger]
            list.contains(item) <==> list.drop_last().contains(item) || item == list.last(),
{
    let fewer = list.drop_last();
    assert forall|item: A| #[trigger] list.contains(item) <==> fewer.contains(item) || item
        == list.last() by {
        if fewer.contains(item) {
            let i = choose|i: int| 0 <= i < fewer.len() && fewer[i] == item;
            assert(list[i] == item);
        }
        if item == list.last() {
            assert(list[list.len() - 1] == item);
        }
        if list.contains(item) && item != list.last() {
            let i = choose|i: int| 0 <= i < list.len() && list[i] == item;
            assert(fewer[i] == item);
        }
    }
}

/// What the steps of a walk leave in the merged layer, and what they leave
/// alone.
proof fn lemma_merged_files<C>(pass: Pass, files: Files<C>, steps: Seq<Step>, host: Host)
    requires
        pass == Pass::Mirror || pass == Pass::Overlay || pass == Pass::Refresh,
    ensures
        ({
            let after = after_steps(pass, files, steps, host);
            &&& after == (Files { merged: after.merged, linked: after.linked, ..files })
            &&& forall|path: Seq<Seq<u8>>| #[trigger]
                after.merged.contains_key(path) <==> files.merged.contains_key(path)
                    || steps.contains(Step::File(path))
            &&& forall|path: Seq<Seq<u8>>|
                after.merged.contains_key(path) ==> #[trigger] after.merged[path] == (
                if !steps.contains(Step::File(path)) {
                    files.merged[path]
                } else if pass == Pass::Mirror {
                    files.lower[path]
                } else if pass == Pass::Refresh && host.fresh.contains(path)
                    && files.merged.contains_key(path) {
                    files.merged[path]
                } else {
                    files.upper[path]
                })
            &&& forall|path: Seq<Seq<u8>>| #[trigger]
                after.linked.contains(path) ==> if steps.contains(Step::File(path)) {
                    if pass == Pass::Mirror {
                        host.links.contains(path)
                    } else {
                        pass == Pass::Refresh && host.fresh.contains(path)
                            && files.merged.contains_key(path) && files.linked.contains(path)
                    }
                } else {
                    files.linked.contains(path)
                }
            &&& forall|path: Seq<Seq<u8>>|
                !steps.contains(Step::File(path)) && files.linked.contains(path)
                    ==> #[trigger] after.linked.contains(path)
        }),
    decreases steps.len(),
{
    if steps.len() > 0 {
        lemma_merged_files(pass, files, steps.drop_last(), host);
        lemma_one_more(steps);
    }
}

/// What staging leaves in the work layer; nothing else changes.
proof fn lemma_staged_files<C>(files: Files<C>, steps: Seq<Step>, host: Host)
    ensures
        ({
            let after = after_steps(Pass::Stage, files, steps, host);
            &&& after == (Files {
                staged: after.staged,
                kept: after.kept,
                kept_folders: after.kept_folders,
                ..files
            })
            &&& forall|path: Seq<Seq<u8>>|
                steps.contains(Step::File(path)) ==> #[trigger] after.staged[path]
                    == files.upper[path]
            &&& forall|path: Seq<Seq<u8>>| #[trigger]
                after.kept.contains_key(path) <==> files.kept.contains_key(path) || (
                steps.contains(Step::File(path)) && files.lower.contains_key(path))
            &&& forall|path: Seq<Seq<u8>>|
                steps.contains(Step::File(path)) && files.lower.contains_key(path)
                    ==> #[trigger] after.kept[path] == files.lower[path]
            &&& forall|path: Seq<Seq<u8>>| #[trigger]
                after.kept_folders.contains(path) <==> files.kept_folders.contains(path) || (
                steps.contains(Step::Directory(path)) && files.folders.contains(path))
        }),
    decreases steps.len(),
{
    if steps.len() > 0 {
        lemma_staged_files(files, steps.drop_last(), host);
        lemma_one_more(steps);
    }
}

/// What moving leaves in the lower layer; but for links, nothing else changes.
proof fn lemma_moved_files<C>(files: Files<C>, steps: Seq<Step>, host: Host)
    ensures
        ({
            let after = after_steps(Pass::Move, files, steps, host);
            &&& after == (Files {
                lower: after.lower,
                folders: after.folders,
                linked: after.linked,
                ..files
            })
            &&& forall|path: Seq<Seq<u8>>| #[trigger]
                after.lower.contains_key(path) <==> files.lower.contains_key(path)
                    || steps.contains(Step::File(path))
            &&& forall|path: Seq<Seq<u8>>|
                after.lower.contains_key(path) ==> #[trigger] after.lower[path] == (
                if steps.contains(Step::File(path)) {
                    files.staged[path]
                } else {
                    files.lower[path]
                })
            &&& forall|path: Seq<Seq<u8>>| #[trigger]
                after.folders.contains(path) <==> files.folders.contains(path)
                    || steps.contains(Step::Directory(path))
            &&& forall|path: Seq<Seq<u8>>| #[trigger]
                after.linked.contains(path) <==> files.linked.contains(path) && !steps.contains(
                    Step::File(path),
                )
        }),
    decreases steps.len(),
{
    if steps.len() > 0 {
        lemma_moved_files(files, steps.drop_last(), host);
        lemma_one_more(steps);
    }
}

proof fn lemma_laid_over<C>(
    pass: Pass,
    files: Files<C>,
    listing: Result<Vec<LayerEntry>, String>,
    host: Host,
)
    requires
        pass == Pass::Mirror || pass == Pass::Overlay || pass == Pass::Refresh,
    ensures
        carried_out(files, laid_over(pass, Some(listing)), host) == after_steps(
            pass,
            files,
            steps_in(Seq::empty(), listing),
            host,
        ),
{
    let root = Seq::<Seq<u8>>::empty();
    lemma_carried_on(files, on_directory(pass, root), planned(pass, root, listing), host);
    lemma_after_step(pass, files, Step::Directory(root), host);
    lemma_walk(pass, files, root, listing, host);
}

/// After a mount the merged layer holds the files of the lower one with those
/// of the upper one over them, and the two are as they were. No file of the
/// upper layer is a link to the lower one.
pub proof fn law_mount_merges_layers<C>(
    files: Files<C>,
    lower: Result<Vec<LayerEntry>, String>,
    upper: Option<Result<Vec<LayerEntry>, String>>,
    host: Host,
)
    requires
        shows(lower, files.lower),
        shows_layer(upper, files.upper),
    ensures
        ({
            let after = carried_out(files, mounted(lower, upper), host);
            &&& after == (Files {
                merged: files.lower.union_prefer_right(files.upper),
                linked: after.linked,
                ..files
            })
            &&& forall|path: Seq<Seq<u8>>| #[trigger]
                after.linked.contains(path) ==> files.lower.contains_key(path)
                    && !files.upper.contains_key(path)
        }),
{
    let make = initialized();
    let clear = seq![
        Operation::Discard(Layer::Merged),
        Operation::MakeDirectory(Layer::Merged, Seq::empty()),
    ];
    let mirror = laid_over(Pass::Mirror, Some(lower));
    let overlay = laid_over(Pass::Overlay, upper);
    lemma_carried_on(files, make + clear + mirror, overlay, host);
    lemma_carried_on(files, make + clear, mirror, host);
    lemma_carried_on(files, make, clear, host);
    assert(carried_out(files, make, host) == files) by {
        assert(make =~= seq![make[0], make[1]] + seq![make[2]]);
        lemma_carried_on(files, seq![make[0], make[1]], seq![make[2]], host);
        lemma_two(files, make[0], make[1], host);
        lemma_one(files, make[2], host);
    }
    let cleared = Files {
        merged: Map::<Seq<Seq<u8>>, C>::empty(),
        linked: Set::<Seq<Seq<u8>>>::empty(),
        ..files
    };
    assert(carried_out(files, clear, host) == cleared) by {
        assert(clear =~= seq![clear[0], clear[1]]);
        lemma_two(files, clear[0], clear[1], host);
    }
    let below_paths = steps_in(Seq::empty(), lower);
    let mirrored = after_steps(Pass::Mirror, cleared, below_paths, host);
    lemma_laid_over(Pass::Mirror, cleared, lower, host);
    lemma_merged_files(Pass::Mirror, cleared, below_paths, host);
    let after = carried_out(files, mounted(lower, upper), host);
    let union = files.lower.union_prefer_right(files.upper);
    match upper {
        Some(listing) => {
            let above = steps_in(Seq::empty(), listing);
            lemma_laid_over(Pass::Overlay, mirrored, listing, host);
            lemma_merged_files(Pass::Overlay, mirrored, above, host);
        },
        None => {
            assert(after == mirrored);
        },
    }
    assert forall|path: Seq<Seq<u8>>| #[trigger] after.merged.contains_key(path)
        <==> union.contains_key(path) by {
        assert(files.lower.contains_key(path) || !files.lower.contains_key(path));
        assert(files.upper.contains_key(path) || !files.upper.contains_key(path));
        assert(mirrored.merged.contains_key(path) || !mirrored.merged.contains_key(path));
    }
    assert forall|path: Seq<Seq<u8>>| #[trigger]
        after.merged.contains_key(path) implies after.merged[path] == union[path] by {
        assert(files.upper.contains_key(path) || !files.upper.contains_key(path));
        assert(files.lower.contains_key(path) || !files.lower.contains_key(path));
        assert(mirrored.merged.contains_key(path) || !mirrored.merged.contains_key(path));
        assert(mirrored.merged[path] == mirrored.merged[path]);
    }
    assert(after.merged =~= union);
    assert forall|path: Seq<Seq<u8>>| #[trigger] after.linked.contains(path) implies
        files.lower.contains_key(path) && !files.upper.contains_key(path) by {
        assert(files.upper.contains_key(path) || !files.upper.contains_key(path));
        assert(files.lower.contains_key(path) || !files.lower.contains_key(path));
        assert(mirrored.linked.contains(path));
        assert(!cleared.linked.contains(path));
    }
}

/// After a synchronization the merged layer holds every file of the upper one,
/// but for those that it took to be up to date. Nothing else has changed: where
/// the merged file was a link to the lower one, the link is broken, and the
/// lower file is as it was.
pub proof fn law_synchronize_brings_up_to_date<C>(
    files: Files<C>,
    upper: Option<Result<Vec<LayerEntry>, String>>,
    host: Host,
)
    requires
        shows_layer(upper, files.upper),
    ensures
        ({
            let after = carried_out(files, laid_over(Pass::Refresh, upper), host);
            let fresh = |path: Seq<Seq<u8>>|
                host.fresh.contains(path) && files.merged.contains_key(path);
            &&& after.lower == files.lower
            &&& after.upper == files.upper
            &&& after.merged.dom() == files.merged.dom().union(files.upper.dom())
            &&& forall|path: Seq<Seq<u8>>|
                after.merged.contains_key(path) ==> #[trigger] after.merged[path] == (
                if !files.upper.contains_key(path) || fresh(path) {
                    files.merged[path]
                } else {
                    files.upper[path]
                })
            &&& forall|path: Seq<Seq<u8>>| #[trigger]
                after.linked.contains(path) ==> files.linked.contains(path) && (
                !files.upper.contains_key(path) || fresh(path))
        }),
{
    let after = carried_out(files, laid_over(Pass::Refresh, upper), host);
    match upper {
        Some(listing) => {
            let above = steps_in(Seq::empty(), listing);
            lemma_laid_over(Pass::Refresh, files, listing, host);
            lemma_merged_files(Pass::Refresh, files, above, host);
        },
        None => {},
    }
    assert forall|path: Seq<Seq<u8>>| #[trigger] after.merged.contains_key(path)
        <==> files.merged.contains_key(path) || files.upper.contains_key(path) by {}
    assert(after.merged.dom() =~= files.merged.dom().union(files.upper.dom()));
    assert forall|path: Seq<Seq<u8>>| #[trigger] after.linked.contains(path) implies
        files.linked.contains(path) && (!files.upper.contains_key(path) || (host.fresh.contains(path)
        && files.merged.contains_key(path))) by {
        assert(files.upper.contains_key(path) || !files.upper.contains_key(path));
    }
}

/// A copy of a layer holds what the layer holds, and is a copy: the layer is as
/// it was, and nothing in the copy is a link.
pub proof fn law_duplicate_stands_alone<C>(
    files: Files<C>,
    upper: Result<Vec<LayerEntry>, String>,
    host: Host,
)
    requires
        shows(upper, files.upper),
        files.merged == Map::<Seq<Seq<u8>>, C>::empty(),
        files.linked == Set::<Seq<Seq<u8>>>::empty(),
    ensures
        carried_out(files, laid_over(Pass::Overlay, Some(upper)), host) == (Files {
            merged: files.upper,
            ..files
        }),
{
    let after = carried_out(files, laid_over(Pass::Overlay, Some(upper)), host);
    lemma_laid_over(Pass::Overlay, files, upper, host);
    lemma_merged_files(Pass::Overlay, files, steps_in(Seq::empty(), upper), host);
    assert forall|path: Seq<Seq<u8>>| #[trigger] after.merged.contains_key(path)
        <==> files.upper.contains_key(path) by {}
    assert(after.merged =~= files.upper);
    assert(after.linked =~= files.linked);
}

/// After a commit the lower and the merged layer hold the files of the upper
/// one over their own, the lower layer has the directories of the upper one too,
/// and the upper layer is empty.
pub proof fn law_commit_publishes_upper<C>(
    files: Files<C>,
    upper: Result<Vec<LayerEntry>, String>,
    host: Host,
)
    requires
        shows(upper, files.upper),
        listing_fault(upper) is None,
    ensures
        ({
            let after = carried_out(files, committed(upper), host);
            &&& after.lower == files.lower.union_prefer_right(files.upper)
            &&& after.upper == Map::<Seq<Seq<u8>>, C>::empty()
            &&& after.merged == files.merged.union_prefer_right(files.upper)
            &&& forall|path: Seq<Seq<u8>>| #[trigger]
                after.folders.contains(path) <==> files.folders.contains(path) || has_directory(
                    upper,
                    path,
                )
            &&& carried_out(after, tidied(), host) == emptied(after, Layer::Work)
        }),
{
    let root = Seq::<Seq<u8>>::empty();
    let steps = steps_in(root, upper);
    let stage = planned(Pass::Stage, root, upper);
    let moves = planned(Pass::Move, root, upper);
    let overlay = planned(Pass::Overlay, root, upper);
    let reset = seq![Operation::Reset(Layer::Work)];
    let clear = seq![Operation::Reset(Layer::Upper)];
    let a = emptied(files, Layer::Work);
    let b = after_steps(Pass::Stage, a, steps, host);
    let c = after_steps(Pass::Move, b, steps, host);
    let d = after_steps(Pass::Overlay, c, steps, host);
    lemma_carried_on(files, prepared(upper), put_in_place(upper), host);
    lemma_carried_on(files, reset, stage, host);
    lemma_one(files, reset[0], host);
    lemma_walk(Pass::Stage, a, root, upper, host);
    lemma_staged_files(a, steps, host);
    lemma_carried_on(b, moves + overlay, clear, host);
    lemma_carried_on(b, moves, overlay, host);
    lemma_walk(Pass::Move, b, root, upper, host);
    lemma_moved_files(b, steps, host);
    lemma_walk(Pass::Overlay, c, root, upper, host);
    lemma_merged_files(Pass::Overlay, c, steps, host);
    lemma_one(d, clear[0], host);
    let e = emptied(d, Layer::Upper);
    lemma_one(e, reset[0], host);
    let lower = files.lower.union_prefer_right(files.upper);
    let merged = files.merged.union_prefer_right(files.upper);
    assert forall|path: Seq<Seq<u8>>| #[trigger] d.lower.contains_key(path)
        <==> lower.contains_key(path) by {
        assert(has_file(upper, path) <==> files.upper.contains_key(path));
    }
    assert forall|path: Seq<Seq<u8>>| #[trigger] d.lower.contains_key(path) implies d.lower[path]
        == lower[path] by {
        assert(has_file(upper, path) <==> files.upper.contains_key(path));
        assert(c.lower[path] == c.lower[path]);
        if steps.contains(Step::File(path)) {
            assert(b.staged[path] == files.upper[path]);
        }
    }
    assert(d.lower =~= lower);
    assert forall|path: Seq<Seq<u8>>| #[trigger] d.merged.contains_key(path)
        <==> merged.contains_key(path) by {
        assert(has_file(upper, path) <==> files.upper.contains_key(path));
    }
    assert forall|path: Seq<Seq<u8>>| #[trigger]
        d.merged.contains_key(path) implies d.merged[path] == merged[path] by {
        assert(has_file(upper, path) <==> files.upper.contains_key(path));
    }
    assert(d.merged =~= merged);
}

/// What is committed after a mount is what the merged layer showed.
pub proof fn law_commit_keeps_what_was_merged<C>(
    files: Files<C>,
    lower: Result<Vec<LayerEntry>, String>,
    upper: Result<Vec<LayerEntry>, String>,
    host: Host,
)
    requires
        shows(lower, files.lower),
        shows(upper, files.upper),
        listing_fault(upper) is None,
    ensures
        ({
            let before = carried_out(files, mounted(lower, Some(upper)), host);
            let after = carried_out(before, committed(upper), host);
            after.lower == before.merged && after.merged == before.merged
        }),
{
    let before = carried_out(files, mounted(lower, Some(upper)), host);
    law_mount_merges_layers(files, lower, Some(upper), host);
    law_commit_publishes_upper(before, upper, host);
    assert(before.merged.union_prefer_right(files.upper) =~= before.merged);
}

/// A workspace is taken down without a change to its lower or its upper layer.
pub proof fn law_teardown_keeps_lower<C>(files: Files<C>, host: Host)
    ensures
        ({
            let after = carried_out(files, torn_down(), host);
            after.lower == files.lower && after.upper == files.upper && after.merged
                == Map::<Seq<Seq<u8>>, C>::empty()
        }),
{
    let plan = torn_down();
    assert(plan =~= seq![plan[0], plan[1]]);
    lemma_two(files, plan[0], plan[1], host);
}

/// What a walk does: operations of its pass, on what it has met.
spec fn fits(pass: Pass, operation: Operation, steps: Seq<Step>) -> bool {
    match operation {
        Operation::MakeDirectory(layer, _) => layer is Merged,
        Operation::Fail(_) => true,
        Operation::KeepDirectory(_) => pass == Pass::Stage,
        Operation::Stage(_) => pass == Pass::Stage,
        Operation::Keep(_) => pass == Pass::Stage,
        Operation::AddDirectory(path) => pass == Pass::Move && steps.contains(
            Step::Directory(path),
        ),
        Operation::Move(path) => pass == Pass::Move && steps.contains(Step::File(path)),
        Operation::Unlink(_) => pass == Pass::Overlay,
        Operation::Copy(path) => pass == Pass::Overlay && steps.contains(Step::File(path)),
        _ => false,
    }
}

/// All operations of a plan are such as a walk does.
spec fn all_fit(pass: Pass, plan: Seq<Operation>, steps: Seq<Step>) -> bool {
    forall|i: int| 0 <= i < plan.len() ==> fits(pass, #[trigger] plan[i], steps)
}

proof fn lemma_all_fit(
    pass: Pass,
    first: Seq<Operation>,
    second: Seq<Operation>,
    steps: Seq<Step>,
)
    requires
        all_fit(pass, first, steps),
        all_fit(pass, second, steps),
    ensures
        all_fit(pass, first + second, steps),
{
    assert forall|i: int| 0 <= i < (first + second).len() implies fits(
        pass,
        #[trigger] (first + second)[i],
        steps,
    ) by {
        if i < first.len() {
            assert((first + second)[i] == first[i]);
        } else {
            assert((first + second)[i] == second[i - first.len()]);
        }
    }
}

/// `part` holds nothing that `steps` does not hold.
spec fn are_among(part: Seq<Step>, steps: Seq<Step>) -> bool {
    forall|i: int| 0 <= i < part.len() ==> steps.contains(#[trigger] part[i])
}

proof fn lemma_walk_fits(
    pass: Pass,
    path: Seq<Seq<u8>>,
    listing: Result<Vec<LayerEntry>, String>,
    steps: Seq<Step>,
)
    requires
        pass == Pass::Stage || pass == Pass::Move || pass == Pass::Overlay,
        are_among(steps_in(path, listing), steps),
    ensures
        all_fit(pass, planned(pass, path, listing), steps),
    decreases listing, 0nat,
{
    match listing {
        Ok(entries) => {
            lemma_walk_fits_entries(pass, path, entries@, entries@.len(), steps);
        },
        Err(_) => {},
    }
}

proof fn lemma_walk_fits_entries(
    pass: Pass,
    path: Seq<Seq<u8>>,
    entries: Seq<LayerEntry>,
    n: nat,
    steps: Seq<Step>,
)
    requires
        n <= entries.len(),
        pass == Pass::Stage || pass == Pass::Move || pass == Pass::Overlay,
        are_among(steps_in_entries(path, entries, n), steps),
    ensures
        all_fit(pass, planned_entries(pass, path, entries, n), steps),
    decreases entries, n,
{
    if n > 0 {
        let m = (n - 1) as nat;
        let seen = steps_in_entries(path, entries, m);
        let all = steps_in_entries(path, entries, n);
        let first = planned_entries(pass, path, entries, m);
        assert forall|i: int| 0 <= i < seen.len() implies steps.contains(#[trigger] seen[i]) by {
            assert(all[i] == seen[i]);
        }
        lemma_walk_fits_entries(pass, path, entries, m, steps);
        match entries[n - 1] {
            LayerEntry::Directory(name, listing) => {
                let inside = path.push(name@);
                let more = steps_in(inside, listing);
                let entering = on_directory(pass, inside);
                let rest = planned(pass, inside, listing);
                assert(all[seen.len() as int] == Step::Directory(inside));
                assert(steps.contains(Step::Directory(inside)));
                assert forall|i: int| 0 <= i < more.len() implies steps.contains(
                    #[trigger] more[i],
                ) by {
                    assert(all[seen.len() + 1 + i] == more[i]);
                }
                lemma_walk_fits(pass, inside, listing, steps);
                assert(all_fit(pass, entering, steps));
                lemma_all_fit(pass, entering, rest, steps);
                lemma_all_fit(pass, first, entering + rest, steps);
            },
            LayerEntry::File(name) => {
                let file = path.push(name@);
                assert(all[seen.len() as int] == Step::File(file));
                assert(steps.contains(Step::File(file)));
                assert(all_fit(pass, on_file(pass, file), steps));
                lemma_all_fit(pass, first, on_file(pass, file), steps);
            },
            LayerEntry::Unreadable(text) => {
                assert(all_fit(pass, seq![Operation::Fail(text@)], steps));
                lemma_all_fit(pass, first, seq![Operation::Fail(text@)], steps);
            },
            LayerEntry::Other => {
                assert(first + Seq::<Operation>::empty() =~= first);
            },
        }
    }
}

/// A walk over a layer does what befits it.
proof fn lemma_plan_fits(pass: Pass, listing: Result<Vec<LayerEntry>, String>)
    requires
        pass == Pass::Stage || pass == Pass::Move || pass == Pass::Overlay,
    ensures
        all_fit(pass, planned(pass, Seq::empty(), listing), steps_in(Seq::empty(), listing)),
{
    let steps = steps_in(Seq::empty(), listing);
    assert forall|i: int| 0 <= i < steps.len() implies steps.contains(#[trigger] steps[i]) by {}
    lemma_walk_fits(pass, Seq::empty(), listing, steps);
}

/// The files that a plan moves to the lower layer, in order.
pub open spec fn moved(plan: Seq<Operation>) -> Seq<Seq<Seq<u8>>>
    decreases plan.len(),
{
    if plan.len() == 0 {
        Seq::empty()
    } else {
        match plan.last() {
            Operation::Move(path) => moved(plan.drop_last()).push(path),
            _ => moved(plan.drop_last()),
        }
    }
}

/// The files among what a walk meets, in order.
pub open spec fn files_among(steps: Seq<Step>) -> Seq<Seq<Seq<u8>>>
    decreases steps.len(),
{
    if steps.len() == 0 {
        Seq::empty()
    } else {
        match steps.last() {
            Step::File(path) => files_among(steps.drop_last()).push(path),
            _ => files_among(steps.drop_last()),
        }
    }
}

proof fn lemma_moved_on(first: Seq<Operation>, second: Seq<Operation>)
    ensures
        moved(first + second) == moved(first) + moved(second),
    decreases second.len(),
{
    if second.len() == 0 {
        assert(first + second =~= first);
        assert(moved(first) + moved(second) =~= moved(first));
    } else {
        assert((first + second).drop_last() =~= first + second.drop_last());
        lemma_moved_on(first, second.drop_last());
        assert(moved(first + second) =~= moved(first) + moved(second));
    }
}

proof fn lemma_files_on(first: Seq<Step>, second: Seq<Step>)
    ensures
        files_among(first + second) == files_among(first) + files_among(second),
    decreases second.len(),
{
    if second.len() == 0 {
        assert(first + second =~= first);
        assert(files_among(first) + files_among(second) =~= files_among(first));
    } else {
        assert((first + second).drop_last() =~= first + second.drop_last());
        lemma_files_on(first, second.drop_last());
        assert(files_among(first + second) =~= files_among(first) + files_among(second));
    }
}

/// Where nothing is moved, nothing has been.
proof fn lemma_nothing_moved(plan: Seq<Operation>)
    requires
        forall|i: int| 0 <= i < plan.len() ==> !(#[trigger] plan[i] is Move),
    ensures
        moved(plan) == Seq::<Seq<Seq<u8>>>::empty(),
    decreases plan.len(),
{
    if plan.len() > 0 {
        let fewer = plan.drop_last();
        assert forall|i: int| 0 <= i < fewer.len() implies !(#[trigger] fewer[i] is Move) by {
            assert(fewer[i] == plan[i]);
        }
        assert(plan.last() == plan[plan.len() - 1]);
        lemma_nothing_moved(fewer);
    }
}

proof fn lemma_one_moved(path: Seq<Seq<u8>>)
    ensures
        moved(seq![Operation::Move(path)]) == seq![path],
        files_among(seq![Step::File(path)]) == seq![path],
        files_among(seq![Step::Directory(path)]) == Seq::<Seq<Seq<u8>>>::empty(),
{
    let plan = seq![Operation::Move(path)];
    let file = seq![Step::File(path)];
    let directory = seq![Step::Directory(path)];
    assert(plan.drop_last() =~= Seq::<Operation>::empty());
    assert(file.drop_last() =~= Seq::<Step>::empty());
    assert(directory.drop_last() =~= Seq::<Step>::empty());
    assert(moved(plan.drop_last()) == Seq::<Seq<Seq<u8>>>::empty());
    assert(files_among(file.drop_last()) == Seq::<Seq<Seq<u8>>>::empty());
    assert(files_among(directory.drop_last()) == Seq::<Seq<Seq<u8>>>::empty());
    assert(moved(plan) =~= seq![path]);
    assert(files_among(file) =~= seq![path]);
}

proof fn lemma_moved_walk(path: Seq<Seq<u8>>, listing: Result<Vec<LayerEntry>, String>)
    ensures
        moved(planned(Pass::Move, path, listing)) == files_among(steps_in(path, listing)),
    decreases listing, 0nat,
{
    match listing {
        Ok(entries) => {
            lemma_moved_entries(path, entries@, entries@.len());
        },
        Err(text) => {
            lemma_nothing_moved(seq![Operation::Fail(text@)]);
        },
    }
}

proof fn lemma_moved_entries(path: Seq<Seq<u8>>, entries: Seq<LayerEntry>, n: nat)
    requires
        n <= entries.len(),
    ensures
        moved(planned_entries(Pass::Move, path, entries, n)) == files_among(
            steps_in_entries(path, entries, n),
        ),
    decreases entries, n,
{
    if n > 0 {
        let m = (n - 1) as nat;
        let first = planned_entries(Pass::Move, path, entries, m);
        let seen = steps_in_entries(path, entries, m);
        lemma_moved_entries(path, entries, m);
        match entries[n - 1] {
            LayerEntry::Directory(name, listing) => {
                let inside = path.push(name@);
                let entering = on_directory(Pass::Move, inside);
                let rest = planned(Pass::Move, inside, listing);
                let more = steps_in(inside, listing);
                let step = seq![Step::Directory(inside)];
                lemma_moved_on(first, entering + rest);
                lemma_moved_on(entering, rest);
                lemma_nothing_moved(entering);
                lemma_moved_walk(inside, listing);
                lemma_files_on(seen, step + more);
                lemma_files_on(step, more);
                lemma_one_moved(inside);
            },
            LayerEntry::File(name) => {
                let file = path.push(name@);
                lemma_moved_on(first, seq![Operation::Move(file)]);
                lemma_files_on(seen, seq![Step::File(file)]);
                lemma_one_moved(file);
            },
            LayerEntry::Unreadable(text) => {
                lemma_moved_on(first, seq![Operation::Fail(text@)]);
                lemma_nothing_moved(seq![Operation::Fail(text@)]);
                assert(seen + Seq::<Step>::empty() =~= seen);
            },
            LayerEntry::Other => {
                assert(first + Seq::<Operation>::empty() =~= first);
                assert(seen + Seq::<Step>::empty() =~= seen);
            },
        }
    }
}

/// A commit writes the files of the upper layer, each once and in the order of
/// the walk.
pub proof fn law_commit_writes_upper_files(upper: Result<Vec<LayerEntry>, String>)
    requires
        listing_fault(upper) is None,
    ensures
        moved(committed(upper)) == files_among(steps_in(Seq::empty(), upper)),
{
    let root = Seq::<Seq<u8>>::empty();
    let moves = planned(Pass::Move, root, upper);
    let overlay = planned(Pass::Overlay, root, upper);
    let clear = seq![Operation::Reset(Layer::Upper)];
    lemma_prepared(upper);
    lemma_nothing_moved(prepared(upper));
    lemma_plan_fits(Pass::Overlay, upper);
    lemma_nothing_moved(overlay);
    lemma_nothing_moved(clear);
    lemma_moved_walk(root, upper);
    lemma_moved_on(prepared(upper), put_in_place(upper));
    lemma_moved_on(moves + overlay, clear);
    lemma_moved_on(moves, overlay);
    assert(moved(committed(upper)) =~= moved(moves));
}

/// What is done before anything of the lower layer is replaced.
proof fn lemma_prepared(upper: Result<Vec<LayerEntry>, String>)
    ensures
        forall|i: int|
            0 <= i < prepared(upper).len() ==> (#[trigger] prepared(upper)[i] == Operation::Reset(
                Layer::Work,
            ) || fits(Pass::Stage, prepared(upper)[i], steps_in(Seq::empty(), upper))),
{
    let steps = steps_in(Seq::empty(), upper);
    let stage = planned(Pass::Stage, Seq::empty(), upper);
    lemma_plan_fits(Pass::Stage, upper);
    assert forall|i: int| 0 <= i < prepared(upper).len() implies (#[trigger] prepared(upper)[i]
        == Operation::Reset(Layer::Work) || fits(Pass::Stage, prepared(upper)[i], steps)) by {
        if i > 0 {
            assert(prepared(upper)[i] == stage[i - 1]);
        }
    }
}

proof fn lemma_before_the_moves<C>(
    files: Files<C>,
    upper: Result<Vec<LayerEntry>, String>,
    k: int,
    host: Host,
)
    requires
        0 <= k <= prepared(upper).len(),
    ensures
        ({
            let done = prepared(upper).take(k);
            let after = carried_out(files, done, host);
            &&& after == (Files {
                staged: after.staged,
                kept: after.kept,
                kept_folders: after.kept_folders,
                ..files
            })
            &&& taken_back(done) == Seq::<Operation>::empty()
        }),
    decreases k,
{
    let plan = prepared(upper);
    if k > 0 {
        lemma_before_the_moves(files, upper, k - 1, host);
        lemma_prepared(upper);
        assert(plan.take(k).drop_last() =~= plan.take(k - 1));
        assert(plan.take(k).last() == plan[k - 1]);
        assert(taken_back(plan.take(k)) =~= Seq::<Operation>::empty());
    }
}

/// Until the first directory is added or the first file moved, a commit that
/// stops leaves every layer but the work layer as it was.
pub proof fn law_stopped_commit_leaves_lower<C>(
    files: Files<C>,
    upper: Result<Vec<LayerEntry>, String>,
    k: int,
    host: Host,
)
    requires
        listing_fault(upper) is None,
        0 <= k <= prepared(upper).len(),
    ensures
        ({
            let after = carried_out(files, committed(upper).take(k), host);
            &&& after.lower == files.lower
            &&& after.folders == files.folders
            &&& after.upper == files.upper
            &&& after.merged == files.merged
            &&& after.linked == files.linked
        }),
{
    assert(committed(upper).take(k) =~= prepared(upper).take(k));
    lemma_before_the_moves(files, upper, k, host);
}

/// Of an upper layer that cannot be read as a whole, nothing is committed: the
/// commit fails with the first reason, and every layer is as it was.
pub proof fn law_unreadable_layer_is_not_committed<C>(
    files: Files<C>,
    upper: Result<Vec<LayerEntry>, String>,
    host: Host,
)
    requires
        listing_fault(upper) is Some,
    ensures
        committed(upper) == seq![Operation::Fail(listing_fault(upper)->0)],
        moved(committed(upper)) == Seq::<Seq<Seq<u8>>>::empty(),
        carried_out(files, committed(upper), host) == files,
{
    lemma_nothing_moved(committed(upper));
    lemma_one(files, committed(upper)[0], host);
}

/// The lower layer holds at `path` what it held.
spec fn agrees<C>(now: Files<C>, files: Files<C>, path: Seq<Seq<u8>>) -> bool {
    &&& now.lower.contains_key(path) <==> files.lower.contains_key(path)
    &&& files.lower.contains_key(path) ==> now.lower[path] == files.lower[path]
}

/// What the lower layer held where a walk came by is kept.
spec fn is_kept<C>(now: Files<C>, files: Files<C>, steps: Seq<Step>) -> bool {
    &&& forall|path: Seq<Seq<u8>>|
        steps.contains(Step::File(path)) ==> (#[trigger] now.kept.contains_key(path)
            <==> files.lower.contains_key(path)) && (files.lower.contains_key(path)
            ==> now.kept[path] == files.lower[path])
    &&& forall|path: Seq<Seq<u8>>|
        steps.contains(Step::Directory(path)) ==> (#[trigger] now.kept_folders.contains(path)
            <==> files.folders.contains(path))
}

/// The operation moved a file to the lower layer, or added a directory, only
/// where a walk came by.
spec fn is_on_the_way(operation: Operation, steps: Seq<Step>) -> bool {
    match operation {
        Operation::Move(path) => steps.contains(Step::File(path)),
        Operation::AddDirectory(path) => steps.contains(Step::Directory(path)),
        _ => true,
    }
}

/// Files were moved to the lower layer and directories added, all of them where
/// a walk came by. The lower layer has not changed elsewhere, and what it held
/// there is kept.
spec fn can_be_taken_back<C>(
    now: Files<C>,
    files: Files<C>,
    steps: Seq<Step>,
    done: Seq<Operation>,
) -> bool {
    &&& is_kept(now, files, steps)
    &&& forall|i: int| 0 <= i < done.len() ==> is_on_the_way(#[trigger] done[i], steps)
    &&& forall|path: Seq<Seq<u8>>|
        !done.contains(Operation::Move(path)) ==> #[trigger] agrees(now, files, path)
    &&& forall|path: Seq<Seq<u8>>|
        !done.contains(Operation::AddDirectory(path)) ==> (#[trigger] now.folders.contains(path)
            <==> files.folders.contains(path))
    &&& forall|path: Seq<Seq<u8>>|
        files.folders.contains(path) ==> #[trigger] now.folders.contains(path)
}

/// Every file that a walk meets is moved.
proof fn lemma_all_moved(plan: Seq<Operation>, path: Seq<Seq<u8>>)
    requires
        moved(plan).contains(path),
    ensures
        plan.contains(Operation::Move(path)),
    decreases plan.len(),
{
    if plan.len() > 0 {
        lemma_one_more(plan);
        let fewer = plan.drop_last();
        if plan.last() is Move {
            lemma_one_more(moved(plan));
            assert(moved(plan).drop_last() =~= moved(fewer));
        }
        if moved(fewer).contains(path) {
            lemma_all_moved(fewer, path);
        }
    }
}

proof fn lemma_file_among(steps: Seq<Step>, path: Seq<Seq<u8>>)
    requires
        steps.contains(Step::File(path)),
    ensures
        files_among(steps).contains(path),
    decreases steps.len(),
{
    lemma_one_more(steps);
    let fewer = steps.drop_last();
    if steps.last() is File {
        lemma_one_more(files_among(steps));
        assert(files_among(steps).drop_last() =~= files_among(fewer));
    }
    if steps.last() != Step::File(path) {
        lemma_file_among(fewer, path);
    }
}

proof fn lemma_in_place<C>(
    start: Files<C>,
    files: Files<C>,
    upper: Result<Vec<LayerEntry>, String>,
    k: int,
    host: Host,
)
    requires
        can_be_taken_back(
            start,
            files,
            steps_in(Seq::empty(), upper),
            Seq::<Operation>::empty(),
        ),
        0 <= k <= put_in_place(upper).len(),
    ensures
        can_be_taken_back(
            carried_out(start, put_in_place(upper).take(k), host),
            files,
            steps_in(Seq::empty(), upper),
            put_in_place(upper).take(k),
        ),
    decreases k,
{
    let root = Seq::<Seq<u8>>::empty();
    let steps = steps_in(root, upper);
    let moves = planned(Pass::Move, root, upper);
    let overlay = planned(Pass::Overlay, root, upper);
    let plan = put_in_place(upper);
    if k == 0 {
        assert(plan.take(0) =~= Seq::<Operation>::empty());
    } else {
        let before = carried_out(start, plan.take(k - 1), host);
        let after = carried_out(start, plan.take(k), host);
        let earlier = plan.take(k - 1);
        let done = plan.take(k);
        let operation = plan[k - 1];
        lemma_in_place(start, files, upper, k - 1, host);
        assert(done.drop_last() =~= earlier);
        assert(done.last() == operation);
        lemma_one_more(done);
        lemma_plan_fits(Pass::Move, upper);
        lemma_plan_fits(Pass::Overlay, upper);
        if k <= moves.len() {
            assert(operation == moves[k - 1]);
            assert(fits(Pass::Move, operation, steps));
        } else {
            assert forall|path: Seq<Seq<u8>>| steps.contains(Step::File(path)) implies
                #[trigger] earlier.contains(Operation::Move(path)) by {
                lemma_file_among(steps, path);
                lemma_moved_walk(root, upper);
                lemma_all_moved(moves, path);
                let i = choose|i: int| 0 <= i < moves.len() && moves[i] == Operation::Move(path);
                assert(earlier[i] == moves[i]);
            }
            if k <= moves.len() + overlay.len() {
                assert(operation == overlay[k - 1 - moves.len()]);
                assert(fits(Pass::Overlay, operation, steps));
            } else {
                assert(operation == Operation::Reset(Layer::Upper));
            }
            if let Operation::Copy(path) = operation {
                assert(earlier.contains(Operation::Move(path)));
            }
        }
        assert(is_on_the_way(operation, steps));
        assert forall|i: int| 0 <= i < done.len() implies is_on_the_way(
            #[trigger] done[i],
            steps,
        ) by {
            if i < k - 1 {
                assert(done[i] == earlier[i]);
            }
        }
        assert(after.kept == before.kept && after.kept_folders == before.kept_folders);
        assert forall|path: Seq<Seq<u8>>|
            !done.contains(Operation::Move(path)) implies #[trigger] agrees(after, files, path) by {
            assert(!earlier.contains(Operation::Move(path)));
            assert(agrees(before, files, path));
        }
        assert forall|path: Seq<Seq<u8>>|
            !done.contains(Operation::AddDirectory(path)) implies (
        #[trigger] after.folders.contains(path) <==> files.folders.contains(path)) by {
            assert(!earlier.contains(Operation::AddDirectory(path)));
            assert(before.folders.contains(path) <==> files.folders.contains(path));
        }
    }
}

proof fn lemma_undone<C>(
    now: Files<C>,
    files: Files<C>,
    steps: Seq<Step>,
    done: Seq<Operation>,
    host: Host,
)
    requires
        can_be_taken_back(now, files, steps, done),
    ensures
        ({
            let after = carried_out(now, taken_back(done), host);
            after.lower == files.lower && after.folders == files.folders
        }),
    decreases done.len(),
{
    if done.len() == 0 {
        assert forall|path: Seq<Seq<u8>>| #[trigger] now.lower.contains_key(path)
            <==> files.lower.contains_key(path) by {
            assert(agrees(now, files, path));
        }
        assert forall|path: Seq<Seq<u8>>| #[trigger]
            now.lower.contains_key(path) implies now.lower[path] == files.lower[path] by {
            assert(agrees(now, files, path));
        }
        assert(now.lower =~= files.lower);
        assert(now.folders =~= files.folders);
    } else {
        let earlier = done.drop_last();
        let operation = done.last();
        let undo = undoing(operation);
        let then = carried_out(now, undo, host);
        lemma_one_more(done);
        assert(done[done.len() - 1] == operation);
        assert(is_on_the_way(operation, steps));
        assert forall|i: int| 0 <= i < earlier.len() implies is_on_the_way(
            #[trigger] earlier[i],
            steps,
        ) by {
            assert(earlier[i] == done[i]);
        }
        match operation {
            Operation::Move(path) => {
                lemma_one(now, Operation::Restore(path), host);
                assert(now.kept.contains_key(path) <==> files.lower.contains_key(path));
            },
            Operation::AddDirectory(path) => {
                lemma_one(now, Operation::DropDirectory(path), host);
                assert(now.kept_folders.contains(path) <==> files.folders.contains(path));
            },
            _ => {},
        }
        assert(then.kept == now.kept && then.kept_folders == now.kept_folders);
        assert forall|path: Seq<Seq<u8>>|
            !earlier.contains(Operation::Move(path)) implies #[trigger] agrees(
            then,
            files,
            path,
        ) by {
            if operation != Operation::Move(path) {
                assert(agrees(now, files, path));
            }
        }
        assert forall|path: Seq<Seq<u8>>|
            !earlier.contains(Operation::AddDirectory(path)) implies (
        #[trigger] then.folders.contains(path) <==> files.folders.contains(path)) by {
            if operation != Operation::AddDirectory(path) {
                assert(now.folders.contains(path) <==> files.folders.contains(path));
            } else {
                assert(done.contains(operation));
            }
        }
        lemma_carried_on(now, undo, taken_back(earlier), host);
        lemma_undone(then, files, steps, earlier, host);
    }
}

/// A commit is atomic. Whichever of its operations fails, taking back what was
/// done before leaves the lower layer with exactly the files and directories
/// that it held.
pub proof fn law_failed_commit_is_taken_back<C>(
    files: Files<C>,
    upper: Result<Vec<LayerEntry>, String>,
    k: int,
    host: Host,
)
    requires
        0 <= k < committed(upper).len(),
    ensures
        ({
            let done = committed(upper).take(k);
            let after = carried_out(carried_out(files, done, host), taken_back(done), host);
            after.lower == files.lower && after.folders == files.folders
        }),
{
    let root = Seq::<Seq<u8>>::empty();
    let steps = steps_in(root, upper);
    let done = committed(upper).take(k);
    let first = prepared(upper);
    if listing_fault(upper) is Some {
        assert(done =~= Seq::<Operation>::empty());
    } else if k <= first.len() {
        assert(done =~= first.take(k));
        lemma_before_the_moves(files, upper, k, host);
    } else {
        let late = put_in_place(upper).take(k - first.len());
        let empty = emptied(files, Layer::Work);
        let start = carried_out(files, first, host);
        let now = carried_out(start, late, host);
        assert(done =~= first + late);
        lemma_carried_on(files, first, late, host);
        lemma_carried_on(
            files,
            seq![Operation::Reset(Layer::Work)],
            planned(Pass::Stage, root, upper),
            host,
        );
        lemma_one(files, Operation::Reset(Layer::Work), host);
        lemma_walk(Pass::Stage, empty, root, upper, host);
        lemma_staged_files(empty, steps, host);
        assert forall|path: Seq<Seq<u8>>| true implies #[trigger] agrees(start, files, path) by {}
        assert forall|path: Seq<Seq<u8>>| steps.contains(Step::File(path)) implies (
        #[trigger] start.kept.contains_key(path) <==> files.lower.contains_key(path)) && (
        files.lower.contains_key(path) ==> start.kept[path] == files.lower[path]) by {
            assert(!empty.kept.contains_key(path));
        }
        assert forall|path: Seq<Seq<u8>>| steps.contains(Step::Directory(path)) implies (
        #[trigger] start.kept_folders.contains(path) <==> files.folders.contains(path)) by {
            assert(!empty.kept_folders.contains(path));
        }
        assert(is_kept(start, files, steps));
        lemma_in_place(start, files, upper, k - first.len(), host);
        lemma_undone(now, files, steps, late, host);
        lemma_taken_back_on(first, late);
        lemma_before_the_moves(files, upper, first.len() as int, host);
        assert(first.take(first.len() as int) =~= first);
        assert(taken_back(done) =~= taken_back(late));
    }
}

proof fn lemma_taken_back_on(first: Seq<Operation>, second: Seq<Operation>)
    ensures
        taken_back(first + second) == taken_back(second) + taken_back(first),
    decreases second.len(),
{
    if second.len() == 0 {
        assert(first + second =~= first);
        assert(taken_back(second) + taken_back(first) =~= taken_back(first));
    } else {
        assert((first + second).drop_last() =~= first + second.drop_last());
        lemma_taken_back_on(first, second.drop_last());
        assert(taken_back(first + second) =~= taken_back(second) + taken_back(first));
    }
}

/// Tidying up after a commit leaves every layer but the work layer as it is.
pub proof fn law_tidying_leaves_what_was_committed<C>(files: Files<C>, host: Host)
    ensures
        ({
            let after = carried_out(files, tidied(), host);
            &&& after.lower == files.lower
            &&& after.folders == files.folders
            &&& after.upper == files.upper
            &&& after.merged == files.merged
        }),
        taken_back(tidied()) == Seq::<Operation>::empty(),
{
    lemma_one(files, tidied()[0], host);
    assert(tidied().drop_last() =~= Seq::<Operation>::empty());
    assert(taken_back(tidied().drop_last()) =~= Seq::<Operation>::empty());
    assert(taken_back(tidied()) =~= Seq::<Operation>::empty());
}

/// The host takes a merged file to be up to date exactly if it has the length
/// and the modification time of the upper one.
pub open spec fn goes_by_stamps(
    host: Host,
    upper: Map<Seq<Seq<u8>>, FileStamp>,
    merged: Map<Seq<Seq<u8>>, FileStamp>,
) -> bool {
    forall|path: Seq<Seq<u8>>| #[trigger]
        host.fresh.contains(path) <==> upper.contains_key(path) && merged.contains_key(path)
            && upper[path].len == merged[path].len && upper[path].modified is Some
            && upper[path].modified == merged[path].modified
}

/// A file of the upper layer that differs from the merged one in length or in
/// modification time, be it newer or older, is what the merged layer shows after
/// a synchronization, and the lower layer is as it was.
pub proof fn law_patched_file_is_shown<C>(
    files: Files<C>,
    upper: Result<Vec<LayerEntry>, String>,
    host: Host,
    upper_stamps: Map<Seq<Seq<u8>>, FileStamp>,
    merged_stamps: Map<Seq<Seq<u8>>, FileStamp>,
    path: Seq<Seq<u8>>,
)
    requires
        shows(upper, files.upper),
        goes_by_stamps(host, upper_stamps, merged_stamps),
        files.upper.contains_key(path),
        upper_stamps[path].len != merged_stamps[path].len || upper_stamps[path].modified
            != merged_stamps[path].modified,
    ensures
        ({
            let after = carried_out(files, laid_over(Pass::Refresh, Some(upper)), host);
            after.merged.contains_key(path) && after.merged[path] == files.upper[path]
                && after.lower == files.lower
        }),
{
    law_synchronize_brings_up_to_date(files, Some(upper), host);
    assert(!host.fresh.contains(path));
    let after = carried_out(files, laid_over(Pass::Refresh, Some(upper)), host);
    assert(after.merged.dom().contains(path));
    assert(after.merged[path] == files.upper[path]);
}

/// A walk makes every directory that it meets, below the merged layer when that
/// is laid out and below the lower one when a commit is put in place.
pub proof fn law_walk_makes_directories(
    pass: Pass,
    path: Seq<Seq<u8>>,
    listing: Result<Vec<LayerEntry>, String>,
    directory: Seq<Seq<u8>>,
)
    requires
        steps_in(path, listing).contains(Step::Directory(directory)),
    ensures
        planned(pass, path, listing).contains(
            match pass {
                Pass::Stage => Operation::KeepDirectory(directory),
                Pass::Move => Operation::AddDirectory(directory),
                _ => Operation::MakeDirectory(Layer::Merged, directory),
            },
        ),
    decreases listing, 0nat,
{
    if let Ok(entries) = listing {
        lemma_entries_make_directories(pass, path, entries@, entries@.len(), directory);
    }
}

proof fn lemma_entries_make_directories(
    pass: Pass,
    path: Seq<Seq<u8>>,
    entries: Seq<LayerEntry>,
    n: nat,
    directory: Seq<Seq<u8>>,
)
    requires
        n <= entries.len(),
        steps_in_entries(path, entries, n).contains(Step::Directory(directory)),
    ensures
        planned_entries(pass, path, entries, n).contains(
            match pass {
                Pass::Stage => Operation::KeepDirectory(directory),
                Pass::Move => Operation::AddDirectory(directory),
                _ => Operation::MakeDirectory(Layer::Merged, directory),
            },
        ),
    decreases entries, n,
{
    let operation = match pass {
        Pass::Stage => Operation::KeepDirectory(directory),
        Pass::Move => Operation::AddDirectory(directory),
        _ => Operation::MakeDirectory(Layer::Merged, directory),
    };
    if n > 0 {
        let m = (n - 1) as nat;
        let seen = steps_in_entries(path, entries, m);
        let all = steps_in_entries(path, entries, n);
        let first = planned_entries(pass, path, entries, m);
        let plan = planned_entries(pass, path, entries, n);
        let i = choose|i: int| 0 <= i < all.len() && all[i] == Step::Directory(directory);
        if i < seen.len() {
            assert(seen[i] == all[i]);
            lemma_entries_make_directories(pass, path, entries, m, directory);
            let k = choose|k: int| 0 <= k < first.len() && first[k] == operation;
            assert(plan[k] == operation);
        } else {
            match entries[n - 1] {
                LayerEntry::Directory(name, listing) => {
                    let inside = path.push(name@);
                    let entering = on_directory(pass, inside);
                    let rest = planned(pass, inside, listing);
                    let more = steps_in(inside, listing);
                    if i == seen.len() {
                        assert(directory == inside);
                        assert(plan[first.len() as int] == entering[0]);
                        assert(entering[0] == operation);
                    } else {
                        assert(more[i - seen.len() - 1] == Step::Directory(directory));
                        law_walk_makes_directories(pass, inside, listing, directory);
                        let k = choose|k: int| 0 <= k < rest.len() && rest[k] == operation;
                        assert(plan[first.len() + entering.len() + k] == operation);
                    }
                },
                _ => {},
            }
        }
    } else {
        assert(steps_in_entries(path, entries, n).len() == 0);
    }
}

/// A layer can be read as a whole exactly if no walk over it fails. If it
/// cannot, the reason is that of the first failure on the way.
pub proof fn law_faults_are_failures(
    pass: Pass,
    path: Seq<Seq<u8>>,
    listing: Result<Vec<LayerEntry>, String>,
)
    ensures
        is_first_failure(planned(pass, path, listing), listing_fault(listing)),
    decreases listing, 0nat,
{
    match listing {
        Ok(entries) => lemma_entry_faults(pass, path, entries@, entries@.len()),
        Err(text) => {
            assert(planned(pass, path, listing)[0] == Operation::Fail(text@));
        },
    }
}

/// The first operation of a plan that gives up does so for this reason, or none
/// gives up.
pub open spec fn is_first_failure(plan: Seq<Operation>, reason: Option<Seq<char>>) -> bool {
    match reason {
        Some(text) => exists|i: int|
            0 <= i < plan.len() && #[trigger] plan[i] == Operation::Fail(text) && forall|j: int|
                0 <= j < i ==> !(#[trigger] plan[j] is Fail),
        None => forall|i: int| 0 <= i < plan.len() ==> !(#[trigger] plan[i] is Fail),
    }
}

proof fn lemma_first_failure_on(
    first: Seq<Operation>,
    reason: Option<Seq<char>>,
    second: Seq<Operation>,
    later: Option<Seq<char>>,
)
    requires
        is_first_failure(first, reason),
        is_first_failure(second, later),
    ensures
        is_first_failure(
            first + second,
            match reason {
                Some(text) => Some(text),
                None => later,
            },
        ),
{
    let plan = first + second;
    match reason {
        Some(text) => {
            let i = choose|i: int|
                0 <= i < first.len() && #[trigger] first[i] == Operation::Fail(text) && forall|j: int|
                    0 <= j < i ==> !(#[trigger] first[j] is Fail);
            assert(plan[i] == first[i]);
            assert forall|j: int| 0 <= j < i implies !(#[trigger] plan[j] is Fail) by {
                assert(plan[j] == first[j]);
            }
        },
        None => {
            match later {
                Some(text) => {
                    let i = choose|i: int|
                        0 <= i < second.len() && #[trigger] second[i] == Operation::Fail(text)
                            && forall|j: int| 0 <= j < i ==> !(#[trigger] second[j] is Fail);
                    assert(plan[first.len() + i] == second[i]);
                    assert forall|j: int| 0 <= j < first.len() + i implies !(
                    #[trigger] plan[j] is Fail) by {
                        if j < first.len() {
                            assert(plan[j] == first[j]);
                        } else {
                            assert(plan[j] == second[j - first.len()]);
                        }
                    }
                },
                None => {
                    assert forall|j: int| 0 <= j < plan.len() implies !(#[trigger] plan[j] is Fail) by {
                        if j < first.len() {
                            assert(plan[j] == first[j]);
                        } else {
                            assert(plan[j] == second[j - first.len()]);
                        }
                    }
                },
            }
        },
    }
}

proof fn lemma_entry_faults(
    pass: Pass,
    path: Seq<Seq<u8>>,
    entries: Seq<LayerEntry>,
    n: nat,
)
    requires
        n <= entries.len(),
    ensures
        is_first_failure(planned_entries(pass, path, entries, n), entries_fault(entries, n)),
    decreases entries, n,
{
    if n > 0 {
        let m = (n - 1) as nat;
        let first = planned_entries(pass, path, entries, m);
        let reason = entries_fault(entries, m);
        lemma_entry_faults(pass, path, entries, m);
        match entries[n - 1] {
            LayerEntry::Directory(name, listing) => {
                let inside = path.push(name@);
                let entering = on_directory(pass, inside);
                let rest = planned(pass, inside, listing);
                law_faults_are_failures(pass, inside, listing);
                assert(is_first_failure(entering, None));
                lemma_first_failure_on(entering, None, rest, listing_fault(listing));
                lemma_first_failure_on(first, reason, entering + rest, listing_fault(listing));
            },
            LayerEntry::File(name) => {
                let file = on_file(pass, path.push(name@));
                assert(is_first_failure(file, None));
                lemma_first_failure_on(first, reason, file, None);
            },
            LayerEntry::Unreadable(text) => {
                let failing = seq![Operation::Fail(text@)];
                assert(failing[0] == Operation::Fail(text@));
                assert(is_first_failure(failing, Some(text@)));
                lemma_first_failure_on(first, reason, failing, Some(text@));
            },
            LayerEntry::Other => {
                assert(first + Seq::<Operation>::empty() =~= first);
            },
        }
    }
}

/// The path at which an operation of a walk does something.
pub open spec fn touched(operation: Operation) -> Option<Seq<Seq<u8>>> {
    match operation {
        Operation::MakeDirectory(_, path) => Some(path),
        Operation::KeepDirectory(path) => Some(path),
        Operation::AddDirectory(path) => Some(path),
        Operation::Link(path) => Some(path),
        Operation::Unlink(path) => Some(path),
        Operation::Copy(path) => Some(path),
        Operation::Refresh(path) => Some(path),
        Operation::Stage(path) => Some(path),
        Operation::Keep(path) => Some(path),
        Operation::Move(path) => Some(path),
        _ => None,
    }
}

/// The operation that makes a directory known before its entries are.
pub open spec fn entering(pass: Pass, directory: Seq<Seq<u8>>) -> Operation {
    match pass {
        Pass::Stage => Operation::KeepDirectory(directory),
        Pass::Move => Operation::AddDirectory(directory),
        _ => Operation::MakeDirectory(Layer::Merged, directory),
    }
}

/// An operation does something in the directory at `path`, or in one below it
/// for which an operation before it cared.
pub open spec fn is_prepared(pass: Pass, path: Seq<Seq<u8>>, plan: Seq<Operation>, j: int) -> bool {
    match touched(plan[j]) {
        Some(place) => place.len() > path.len() && (place.drop_last() == path || plan.take(
            j,
        ).contains(entering(pass, place.drop_last()))),
        None => true,
    }
}

/// A directory is made, kept or added before anything is done in it.
pub proof fn law_directories_come_first(
    pass: Pass,
    path: Seq<Seq<u8>>,
    listing: Result<Vec<LayerEntry>, String>,
)
    ensures
        forall|j: int|
            0 <= j < planned(pass, path, listing).len() ==> #[trigger] is_prepared(
                pass,
                path,
                planned(pass, path, listing),
                j,
            ),
    decreases listing, 0nat,
{
    match listing {
        Ok(entries) => {
            let plan = planned_entries(pass, path, entries@, entries@.len());
            lemma_entries_come_after(pass, path, entries@, entries@.len());
            assert(planned(pass, path, listing) == plan);
            assert forall|j: int| 0 <= j < planned(pass, path, listing).len() implies #[trigger]
            is_prepared(pass, path, planned(pass, path, listing), j) by {
                assert(is_prepared(pass, path, plan, j));
            }
        },
        Err(text) => {
            let plan = planned(pass, path, listing);
            assert(plan =~= seq![Operation::Fail(text@)]);
            assert(touched(plan[0]) is None);
        },
    }
}

proof fn lemma_entries_come_after(
    pass: Pass,
    path: Seq<Seq<u8>>,
    entries: Seq<LayerEntry>,
    n: nat,
)
    requires
        n <= entries.len(),
    ensures
        forall|j: int|
            0 <= j < planned_entries(pass, path, entries, n).len() ==> #[trigger] is_prepared(
                pass,
                path,
                planned_entries(pass, path, entries, n),
                j,
            ),
    decreases entries, n,
{
    if n > 0 {
        let m = (n - 1) as nat;
        let before = planned_entries(pass, path, entries, m);
        let plan = planned_entries(pass, path, entries, n);
        lemma_entries_come_after(pass, path, entries, m);
        assert forall|j: int| 0 <= j < plan.len() implies #[trigger] is_prepared(
            pass,
            path,
            plan,
            j,
        ) by {
            if j < before.len() {
                assert(is_prepared(pass, path, before, j));
                assert(plan[j] == before[j]);
                assert(plan.take(j) =~= before.take(j));
            } else {
                match entries[n - 1] {
                    LayerEntry::Directory(name, listing) => {
                        let inside = path.push(name@);
                        let rest = planned(pass, inside, listing);
                        assert(inside.drop_last() =~= path);
                        let k = j - before.len() - 1;
                        assert(plan[before.len() as int] == entering(pass, inside));
                        if k >= 0 {
                            law_directories_come_first(pass, inside, listing);
                            assert(plan[j] == rest[k]);
                            assert(is_prepared(pass, inside, rest, k));
                            if let Some(place) = touched(plan[j]) {
                                let up = entering(pass, place.drop_last());
                                if place.drop_last() == inside {
                                    assert(plan.take(j)[before.len() as int] == up);
                                } else {
                                    let i = choose|i: int| 0 <= i < k && rest.take(k)[i] == up;
                                    assert(plan.take(j)[before.len() + 1 + i] == up);
                                }
                            }
                        }
                    },
                    LayerEntry::File(name) => {
                        let file = path.push(name@);
                        assert(file.drop_last() =~= path);
                        assert(plan[j] == on_file(pass, file)[j - before.len()]);
                    },
                    _ => {},
                }
            }
        }
    }
}

} // verus!
