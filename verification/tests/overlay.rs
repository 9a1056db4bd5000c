use std::collections::{BTreeMap, BTreeSet};

use aero_mitosis::virtualization::engine::{
    needs_update, on_change, refreshing, should_copy, CowEngine, FileOp, FileStamp, Layer, LayerEntry,
};
use aero_mitosis::virtualization::projfs::{code_in_hex, falls_back, marked, mount_with_projfs, started, E_ACCESSDENIED};
use aero_mitosis::virtualization::traits::{CommitReport, VirtualEnvConfig, VirtualizerError};

type Path = Vec<Vec<u8>>;
type Files = BTreeMap<Path, String>;

fn path(text: &str) -> Path {
    text.split('/').map(|part| part.as_bytes().to_vec()).collect()
}

fn files(list: &[(&str, &str)]) -> Files {
    list.iter().map(|(name, content)| (path(name), content.to_string())).collect()
}

fn listing(files: &Files) -> Result<Vec<LayerEntry>, String> {
    let mut entries = Vec::new();
    let mut directories: BTreeMap<Vec<u8>, Files> = BTreeMap::new();
    for (path, content) in files {
        if path.len() == 1 {
            entries.push(LayerEntry::File(path[0].clone()));
        } else {
            let below = directories.entry(path[0].clone()).or_default();
            below.insert(path[1..].to_vec(), content.clone());
        }
    }
    for (name, below) in directories {
        entries.push(LayerEntry::Directory(name, listing(&below)));
    }
    entries.push(LayerEntry::Other);
    Ok(entries)
}

#[derive(Default)]
struct Workspace {
    lower: Files,
    upper: Files,
    merged: Files,
    staged: Files,
    kept: Files,
    /// The directories of the lower layer, and those of them that were kept.
    folders: BTreeSet<Path>,
    kept_folders: BTreeSet<Path>,
    /// The merged files that are those of the lower layer.
    linked: Vec<Path>,
    fresh: Vec<Path>,
    directories: Vec<(Layer, Path)>,
    /// The operation that fails, by its place in the plan.
    failing: Option<usize>,
}

impl Workspace {
    fn unlink(&mut self, path: &Path) {
        self.merged.remove(path);
        self.linked.retain(|linked| linked != path);
    }

    fn write(&mut self, path: Path) {
        let content = self.upper[&path].clone();
        if self.linked.contains(&path) {
            self.lower.insert(path.clone(), content.clone());
        }
        self.merged.insert(path, content);
    }

    fn carry_out(&mut self, plan: Vec<FileOp>) -> Result<CommitReport, String> {
        let mut report = CommitReport::default();
        for at in 0..plan.len() {
            if self.failing == Some(at) {
                self.failing = None;
                let undo = CowEngine::take_back(&plan, at);
                self.carry_out(undo)?;
                return Err("failed".into());
            }
            match &plan[at] {
                FileOp::MakeDirectory(layer, path) => self.directories.push((*layer, path.clone())),
                FileOp::Discard(layer) | FileOp::Reset(layer) => match layer {
                    Layer::Lower => self.lower.clear(),
                    Layer::Upper => self.upper.clear(),
                    Layer::Merged => {
                        self.merged.clear();
                        self.linked.clear();
                    }
                    Layer::Work => {
                        self.staged.clear();
                        self.kept.clear();
                        self.kept_folders.clear();
                    }
                },
                FileOp::Link(path) => {
                    self.merged.insert(path.clone(), self.lower[path].clone());
                    self.linked.push(path.clone());
                }
                FileOp::Unlink(path) => self.unlink(path),
                FileOp::Copy(path) => self.write(path.clone()),
                FileOp::Refresh(path) => {
                    if !(self.fresh.contains(path) && self.merged.contains_key(path)) {
                        self.unlink(path);
                        self.write(path.clone());
                    }
                }
                FileOp::KeepDirectory(path) => {
                    if self.folders.contains(path) {
                        self.kept_folders.insert(path.clone());
                    }
                }
                FileOp::AddDirectory(path) => {
                    assert!(path.len() == 1 || self.folders.contains(&path[..path.len() - 1]));
                    self.folders.insert(path.clone());
                }
                FileOp::DropDirectory(path) => {
                    if !self.kept_folders.contains(path) {
                        assert!(!self.lower.keys().any(|file| file.starts_with(path)), "not empty");
                        assert!(self.folders.remove(path));
                    }
                }
                FileOp::Stage(path) => {
                    self.staged.insert(path.clone(), self.upper[path].clone());
                }
                FileOp::Keep(path) => {
                    if let Some(content) = self.lower.get(path) {
                        self.kept.insert(path.clone(), content.clone());
                    }
                }
                FileOp::Move(path) => {
                    let content = self.staged.remove(path).unwrap();
                    let size = content.len() as u64;
                    report.record(path.clone(), size, size);
                    self.lower.insert(path.clone(), content);
                    self.linked.retain(|linked| linked != path);
                }
                FileOp::Restore(path) => {
                    match self.kept.remove(path) {
                        Some(content) => self.lower.insert(path.clone(), content),
                        None => self.lower.remove(path),
                    };
                    self.linked.retain(|linked| linked != path);
                }
                FileOp::Fail(text) => return Err(text.clone()),
            }
        }
        Ok(report)
    }
}

fn config() -> VirtualEnvConfig {
    VirtualEnvConfig::over(b"/src", b"/tmp/x", b'/')
}

#[test]
fn cow_engine_mount_sync_and_commit() {
    let mut space = Workspace {
        lower: files(&[("foo.txt", "lower\n")]),
        upper: files(&[("bar.txt", "upper\n")]),
        ..Workspace::default()
    };
    let plan = CowEngine::mount(&config(), true, &listing(&space.lower), &Some(listing(&space.upper))).unwrap();
    space.carry_out(plan).unwrap();
    assert_eq!(space.merged[&path("foo.txt")], "lower\n");
    assert_eq!(space.merged[&path("bar.txt")], "upper\n");

    space.upper.insert(path("foo.txt"), "changed\n".into());
    space.carry_out(CowEngine::synchronize_upper(&Some(listing(&space.upper)))).unwrap();
    assert_eq!(space.merged[&path("foo.txt")], "changed\n");
    assert_eq!(space.lower[&path("foo.txt")], "lower\n");

    let report = space.carry_out(CowEngine::commit(&listing(&space.upper))).unwrap();
    assert!(report.files_written.iter().any(|p| *p == path("foo.txt")));
    assert!(report.bytes_mutated > 0);
    assert_eq!(report.bytes_mutated, 28);
    assert_eq!(space.lower[&path("foo.txt")], "changed\n");
    assert_eq!(space.lower[&path("bar.txt")], "upper\n");
    assert!(space.upper.is_empty());

    space.carry_out(CowEngine::teardown()).unwrap();
    assert!(space.merged.is_empty());
    assert_eq!(space.lower.len(), 2);
}

#[test]
fn a_mount_lays_the_upper_layer_over_the_lower() {
    let mut space = Workspace {
        lower: files(&[("a/b/c.txt", "1"), ("a/d.txt", "2"), ("e.txt", "3")]),
        upper: files(&[("a/b/c.txt", "4"), ("f/g.txt", "5")]),
        merged: files(&[("stale.txt", "9")]),
        ..Workspace::default()
    };
    let plan = CowEngine::mount(&config(), true, &listing(&space.lower), &Some(listing(&space.upper))).unwrap();
    space.carry_out(plan).unwrap();
    let expected = files(&[("a/b/c.txt", "4"), ("a/d.txt", "2"), ("e.txt", "3"), ("f/g.txt", "5")]);
    assert_eq!(space.merged, expected);
    assert!(space.directories.contains(&(Layer::Merged, path("a/b"))));
    assert!(space.directories.contains(&(Layer::Upper, vec![])));
    assert!(space.directories.contains(&(Layer::Work, vec![])));

    space.carry_out(CowEngine::commit(&listing(&space.upper))).unwrap();
    assert_eq!(space.lower, expected);
    assert_eq!(space.merged, expected);
    assert_eq!(space.folders, BTreeSet::from([path("a"), path("a/b"), path("f")]));
    assert!(!space.staged.is_empty() || !space.kept.is_empty());
    space.carry_out(CowEngine::tidy()).unwrap();
    assert!(space.staged.is_empty() && space.kept.is_empty());
    assert_eq!(space.lower, expected);
}

#[test]
fn a_mirror_shows_the_lower_layer() {
    let mut space = Workspace { lower: files(&[("a/b", "1"), ("c", "2")]), ..Workspace::default() };
    space.carry_out(CowEngine::mirror(&listing(&space.lower))).unwrap();
    assert_eq!(space.merged, space.lower);
    assert_eq!(space.directories, vec![(Layer::Merged, vec![]), (Layer::Merged, path("a"))]);
}

#[test]
fn files_that_are_up_to_date_are_left_alone() {
    let mut space = Workspace {
        upper: files(&[("a", "new"), ("b", "new"), ("c", "new")]),
        merged: files(&[("a", "old"), ("b", "old"), ("z", "old")]),
        fresh: vec![path("a"), path("c")],
        ..Workspace::default()
    };
    space.carry_out(CowEngine::synchronize_upper(&Some(listing(&space.upper)))).unwrap();
    assert_eq!(space.merged, files(&[("a", "old"), ("b", "new"), ("c", "new"), ("z", "old")]));
    assert!(CowEngine::synchronize_upper(&None).is_empty());
}

#[test]
fn nothing_is_committed_of_a_layer_that_cannot_be_read() {
    let broken = Ok(vec![
        LayerEntry::File(b"a".to_vec()),
        LayerEntry::Directory(b"d".to_vec(), Err("no permission".into())),
        LayerEntry::File(b"b".to_vec()),
        LayerEntry::Unreadable("later".into()),
    ]);
    let mut space = Workspace { upper: files(&[("a", "1"), ("b", "2")]), ..Workspace::default() };
    assert!(matches!(CowEngine::commit(&broken).as_slice(), [FileOp::Fail(text)] if text == "no permission"));
    assert_eq!(space.carry_out(CowEngine::commit(&broken)).unwrap_err(), "no permission");
    assert!(space.lower.is_empty());
    assert_eq!(space.upper.len(), 2);
    let odd = Ok(vec![LayerEntry::Unreadable("no kind".into())]);
    assert_eq!(space.carry_out(CowEngine::commit(&odd)).unwrap_err(), "no kind");
    assert_eq!(space.carry_out(CowEngine::commit(&Err("gone".into()))).unwrap_err(), "gone");
}

#[test]
fn a_commit_that_fails_leaves_the_lower_layer_as_it_was() {
    let upper = files(&[("a", "new a"), ("d/b", "new b"), ("d/c", "new c"), ("e/f/g", "new g")]);
    let lower = files(&[("a", "old a"), ("d/c", "old c"), ("z", "old z")]);
    let folders = BTreeSet::from([path("d")]);
    let count = CowEngine::commit(&listing(&upper)).len();
    for failing in 0..count {
        let mut space = Workspace {
            lower: lower.clone(),
            upper: upper.clone(),
            folders: folders.clone(),
            ..Workspace::default()
        };
        let plan = CowEngine::mount(&config(), true, &listing(&lower), &Some(listing(&upper))).unwrap();
        space.carry_out(plan).unwrap();
        space.failing = Some(failing);
        assert_eq!(space.carry_out(CowEngine::commit(&listing(&upper))).unwrap_err(), "failed");
        assert_eq!(space.lower, lower, "operation {failing}");
        assert_eq!(space.folders, folders, "operation {failing}");
    }
    assert!(CowEngine::take_back(&CowEngine::commit(&listing(&upper)), 0).is_empty());
}

#[test]
fn everything_is_staged_before_anything_is_moved() {
    let plan = CowEngine::commit(&listing(&files(&[("a", "1"), ("d/b", "2")])));
    let last_stage = plan.iter().rposition(|op| matches!(op, FileOp::Stage(_) | FileOp::Keep(_))).unwrap();
    let first_move = plan.iter().position(|op| matches!(op, FileOp::Move(_))).unwrap();
    let first_lower = plan.iter().position(|op| matches!(op, FileOp::AddDirectory(_))).unwrap();
    assert!(last_stage < first_move && last_stage < first_lower);
    assert!(matches!(plan[0], FileOp::Reset(Layer::Work)));
}

#[test]
fn a_copy_shares_nothing_with_its_source() {
    let mut space = Workspace { upper: files(&[("a/b", "1"), ("c", "2")]), ..Workspace::default() };
    let source = space.upper.clone();
    space.carry_out(CowEngine::duplicate(&listing(&source))).unwrap();
    assert_eq!(space.merged, source);
    assert_eq!(space.upper, source);
    assert!(space.linked.is_empty());
}

#[test]
fn a_stale_file_is_removed_before_it_is_copied() {
    let stamp = |len| FileStamp { len, modified: Some(5) };
    let plan = refreshing(&path("a/b"), &stamp(3), Some(stamp(4)));
    assert!(matches!(plan.as_slice(), [FileOp::Unlink(a), FileOp::Copy(b)] if *a == path("a/b") && *b == path("a/b")));
    assert_eq!(refreshing(&path("a"), &stamp(3), None).len(), 2);
    assert!(refreshing(&path("a"), &stamp(3), Some(stamp(3))).is_empty());
}

#[test]
fn names_need_not_be_texts() {
    let odd = Ok(vec![LayerEntry::File(vec![0xff, 0x2e])]);
    match CowEngine::mirror(&odd).as_slice() {
        [FileOp::MakeDirectory(Layer::Merged, root), FileOp::Link(path)] => {
            assert!(root.is_empty());
            assert_eq!(*path, vec![vec![0xff, 0x2e]]);
        }
        other => panic!("{other:?}"),
    }
    let config = VirtualEnvConfig::over(&[0x2f, 0xff], b"/t", b'/');
    assert_eq!(
        CowEngine::initialize(&config, false).unwrap_err().describe(),
        "virtualizer system fault: lower directory does not exist: /\u{fffd}"
    );
}

#[test]
fn there_has_to_be_a_lower_layer() {
    assert_eq!(CowEngine::initialize(&config(), true).unwrap().len(), 3);
    let error = CowEngine::initialize(&config(), false).unwrap_err();
    assert_eq!(error.describe(), "virtualizer system fault: lower directory does not exist: /src");
    assert!(CowEngine::mount(&config(), false, &Ok(vec![]), &None).is_err());
}

#[test]
fn layers_stand_side_by_side() {
    let config = config();
    assert_eq!(config.lower_dir, b"/src");
    assert_eq!(config.upper_dir, b"/tmp/x/upper");
    assert_eq!(config.merged_dir, b"/tmp/x/merged");
    assert_eq!(config.work_dir, b"/tmp/x/work");
    assert_eq!(config.clone().work_dir, config.work_dir);
    assert_eq!(VirtualEnvConfig::default().lower_dir, b"");
}

#[test]
fn copies_are_compared_by_length_and_time() {
    let stamp = |len, modified| FileStamp { len, modified };
    assert!(!needs_update(&stamp(3, Some(5)), &stamp(3, Some(5))));
    assert!(needs_update(&stamp(3, Some(5)), &stamp(4, Some(5))));
    assert!(needs_update(&stamp(3, Some(5)), &stamp(3, Some(6))));
    assert!(needs_update(&stamp(3, None), &stamp(3, Some(5))));
    assert!(needs_update(&stamp(3, Some(5)), &stamp(3, None)));
    assert!(needs_update(&stamp(3, None), &stamp(3, None)));
    assert!(should_copy(false, &stamp(3, Some(5)), Some(stamp(3, Some(5)))));
    assert!(!should_copy(true, &stamp(3, Some(5)), Some(stamp(3, Some(5)))));
    assert!(should_copy(true, &stamp(3, Some(5)), None));
}

#[test]
fn changes_in_the_upper_layer_are_copied() {
    let upper = path("/tmp/x/upper");
    let plan = on_change(&upper, &path("/tmp/x/upper/a/b.txt"), true);
    match plan.as_slice() {
        [FileOp::Unlink(first), FileOp::Copy(second)] => {
            assert_eq!(*first, path("a/b.txt"));
            assert_eq!(*second, path("a/b.txt"));
        }
        other => panic!("{other:?}"),
    }
    assert!(on_change(&upper, &path("/tmp/x/upper/a/b.txt"), false).is_empty());
    assert!(on_change(&upper, &path("/tmp/x/uppers/b.txt"), true).is_empty());
    assert!(on_change(&upper, &path("/tmp"), true).is_empty());
}

#[test]
fn projected_file_system_codes_are_read() {
    assert_eq!(E_ACCESSDENIED as u32, 0x8007_0005);
    assert_eq!(code_in_hex(E_ACCESSDENIED), "0x80070005");
    assert_eq!(code_in_hex(0), "0x0");
    assert_eq!(code_in_hex(255), format!("{:#x}", 255));
    assert_eq!(code_in_hex(-1), format!("{:#x}", -1i32));
    assert!(marked(0).is_ok());
    assert!(marked(E_ACCESSDENIED).is_ok());
    assert_eq!(
        marked(1).unwrap_err().describe(),
        "virtualizer system fault: PrjMarkDirectoryAsPlaceholder failed: 0x1"
    );
    assert!(started(0).is_ok());
    assert!(matches!(started(E_ACCESSDENIED), Err(VirtualizerError::AccessDenied)));
    assert_eq!(
        started(-2147024809).unwrap_err().describe(),
        "virtualizer system fault: PrjStartVirtualizing failed: 0x80070057"
    );
}

#[test]
fn the_engine_takes_over_from_the_projected_file_system() {
    assert!(falls_back(&mount_with_projfs(started(0))));
    assert!(falls_back(&mount_with_projfs(started(E_ACCESSDENIED))));
    assert!(!falls_back(&mount_with_projfs(started(5))));
    assert!(!falls_back(&Ok(())));
    assert_eq!(VirtualizerError::Io("x".into()).describe(), "virtualizer I/O error: x");
    assert_eq!(VirtualizerError::AccessDenied.describe(), "virtualizer access denied");
}
