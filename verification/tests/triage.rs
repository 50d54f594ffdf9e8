//! Triage over a file tree that is held in memory.

use cull::config::{Config, Order, RawConfig};
use cull::fixtures::build;
use cull::gallery::{
    list_keep_page, mtime_ms, DescribeStep, KeepItem, KeepSort, ListStep, PageHeap,
};
use cull::meta::extract_meta;
use cull::moves::{
    is_cross_device, perform_move, resolve_collision, undo, MoveError, Outcome, Relocation,
    UndoEntry, UndoError, UndoStack, Undone, EXDEV,
};
use cull::paths::{is_under, lookup_path, validate_relpath, validate_relpath_under, PathError};
use cull::resolve::{ResolveError, ResolveStep};
use cull::sample::{sample_keep, SampleStep, SplitMix64};
use cull::server::{
    check_undo, day_fits, day_of, finish_undo, image_reply, move_to, next_status, page_limit,
    retriage, start_undo, today_index, validate_kept, ApiError, AppState, Destination,
    MoveResponse, Retriage, Stats, StatsBody, UndoResponse,
};
use cull::walk::{
    consider, count_backlog, find_next, has_allowed_ext, CountStep, DirEntry, EntryKind, FindStep,
    Listing,
};
use std::collections::{BTreeMap, BTreeSet};

/// A file tree.
struct Tree {
    files: BTreeMap<String, (Vec<u8>, Option<u128>)>,
    dirs: BTreeSet<String>,
    links: BTreeMap<String, String>,
    /// A directory that cannot be read.
    locked: Option<String>,
    /// Directories on another file system.
    foreign: Option<String>,
}

fn string(path: &[u8]) -> String {
    String::from_utf8(path.to_vec()).unwrap()
}

fn dir_of(path: &str) -> String {
    match path.rsplit_once('/') {
        Some((dir, _)) if !dir.is_empty() => dir.to_string(),
        _ => "/".to_string(),
    }
}

impl Tree {
    fn new() -> Tree {
        Tree {
            files: BTreeMap::new(),
            dirs: BTreeSet::new(),
            links: BTreeMap::new(),
            locked: None,
            foreign: None,
        }
    }

    fn mkdirs(&mut self, dir: &str) {
        let mut dir = dir.to_string();
        while self.dirs.insert(dir.clone()) && dir != "/" {
            dir = dir_of(&dir);
        }
    }

    fn write(&mut self, path: &str, bytes: &[u8]) {
        self.mkdirs(&dir_of(path));
        self.files.insert(path.to_string(), (bytes.to_vec(), None));
    }

    fn has(&self, path: &[u8]) -> bool {
        let path = string(path);
        self.files.contains_key(&path) || self.dirs.contains(&path)
    }

    fn is_file(&self, path: &str) -> bool {
        self.files.contains_key(path)
    }

    fn read(&self, path: &[u8]) -> Option<Vec<u8>> {
        self.files.get(&string(path)).map(|f| f.0.clone())
    }

    fn millis(&self, path: &[u8]) -> Option<u128> {
        self.files.get(&string(path)).and_then(|f| f.1)
    }

    fn canonical(&self, path: &[u8]) -> Option<Vec<u8>> {
        let path = string(path);
        match self.links.get(&path) {
            Some(target) => Some(target.clone().into_bytes()),
            None if self.has(path.as_bytes()) => Some(path.into_bytes()),
            None => None,
        }
    }

    fn listing(&self, dir: &[u8]) -> Listing {
        let dir = string(dir);
        if self.locked.as_deref() == Some(dir.as_str()) {
            return Listing::Failed;
        }
        if !self.dirs.contains(&dir) {
            return Listing::NotFound;
        }
        let name = |path: &str| Some(path.rsplit_once('/').unwrap().1.to_string());
        let mut entries = Vec::new();
        let files = self.files.keys().map(|p| (p, EntryKind::File));
        let dirs = self.dirs.iter().map(|p| (p, EntryKind::Dir));
        let links = self.links.keys().map(|p| (p, EntryKind::Symlink));
        for (path, kind) in files.chain(dirs).chain(links) {
            if path != "/" && dir_of(path) == dir {
                entries.push(DirEntry {
                    name: name(path),
                    kind: Some(kind),
                });
            }
        }
        Listing::Entries(entries)
    }

    fn rename(&mut self, from: &[u8], to: &[u8]) -> Result<(), std::io::Error> {
        let (from, to) = (string(from), string(to));
        if let Some(f) = &self.foreign {
            if to.starts_with(f.as_str()) != from.starts_with(f.as_str()) {
                return Err(std::io::Error::from_raw_os_error(EXDEV));
            }
        }
        match self.files.remove(&from) {
            Some(file) => {
                self.files.insert(to, file);
                Ok(())
            }
            None => Err(std::io::Error::from_raw_os_error(2)),
        }
    }

    fn run(&mut self, mut step: Relocation) -> Outcome {
        loop {
            step = match step {
                Relocation::CreateDirs(d) => {
                    self.mkdirs(&string(d.dir()));
                    d.created(Ok(()))
                }
                Relocation::Probe(p) => {
                    let taken = self.has(&p.path());
                    p.answered(taken)
                }
                Relocation::Rename(r) => {
                    let result = self.rename(r.from(), r.to());
                    return r.renamed(result);
                }
                Relocation::Ended(outcome) => return outcome,
            }
        }
    }

    fn perform(&mut self, base: &str, from: &str, rel: &str) -> Result<UndoEntry, MoveError> {
        let (plan, step) = perform_move(base.as_bytes(), from.as_bytes(), rel);
        let outcome = self.run(step);
        plan.finish(outcome)
    }

    fn take_back(&mut self, source: &str, stack: &mut UndoStack) -> Result<Undone, UndoError> {
        let plan = undo(source.as_bytes(), stack)?;
        let there = self.has(plan.dst());
        let (plan, step) = plan.checked(there)?;
        let outcome = self.run(step);
        plan.finish(outcome)
    }

    fn next(&self, cfg: &Config, after: Option<&str>) -> Result<Option<String>, ()> {
        let mut step = find_next(cfg, after);
        loop {
            step = match step {
                FindStep::ReadDir(s) => {
                    let listing = self.listing(s.dir());
                    s.listed(listing)
                }
                FindStep::Done(found) => return Ok(found),
                FindStep::Failed => return Err(()),
            }
        }
    }

    fn count(&self, cfg: &Config) -> Result<usize, ()> {
        let mut step = count_backlog(cfg);
        loop {
            step = match step {
                CountStep::ReadDir(s) => {
                    let listing = self.listing(s.dir());
                    assert!(s.fits(&listing));
                    s.listed(listing)
                }
                CountStep::Done(n) => return Ok(n),
                CountStep::Failed => return Err(()),
            }
        }
    }

    fn describe(&self, mut step: DescribeStep) -> Vec<KeepItem> {
        loop {
            step = match step {
                DescribeStep::Stat(d) => {
                    let millis = self.millis(d.file());
                    d.stamped(millis)
                }
                DescribeStep::Done(items) => return items,
            }
        }
    }

    fn page(
        &self,
        cfg: &Config,
        sort: KeepSort,
        desc: bool,
        after: Option<(u64, &str)>,
        limit: usize,
    ) -> Result<Vec<KeepItem>, ()> {
        let mut step = list_keep_page(cfg, sort, desc, after, limit);
        loop {
            step = match step {
                ListStep::ReadDir(s) => {
                    let listing = self.listing(s.dir());
                    s.listed(listing)
                }
                ListStep::Stat(s) => {
                    let millis = self.millis(s.file());
                    s.stamped(millis)
                }
                ListStep::Describe(d) => return Ok(self.describe(d)),
                ListStep::Failed => return Err(()),
            }
        }
    }

    fn sample(&self, cfg: &Config, n: usize, seed: u64) -> Result<Vec<KeepItem>, ()> {
        let mut step = sample_keep(cfg, n, seed);
        loop {
            step = match step {
                SampleStep::ReadDir(s) => {
                    let listing = self.listing(s.dir());
                    assert!(s.fits(&listing));
                    s.listed(listing)
                }
                SampleStep::Describe(d) => return Ok(self.describe(d)),
                SampleStep::Failed => return Err(()),
            }
        }
    }

    fn drain(&self, cfg: &Config) -> Vec<String> {
        let mut out: Vec<String> = Vec::new();
        while let Some(rel) = self.next(cfg, out.last().map(|r| r.as_str())).unwrap() {
            out.push(rel);
        }
        out
    }

    fn find(&self, dir: &[u8]) -> Result<Vec<u8>, std::io::Error> {
        self.canonical(dir)
            .ok_or_else(|| std::io::Error::from_raw_os_error(2))
    }

    fn resolve(&mut self, raw: RawConfig) -> Result<Config, ResolveError> {
        let mut step = raw.resolve();
        loop {
            step = match step {
                ResolveStep::FindSource(s) => {
                    let found = self.find(s.dir());
                    s.found(found)
                }
                ResolveStep::MakeKeep(s) => {
                    self.mkdirs(&string(s.dir()));
                    s.created(Ok(()))
                }
                ResolveStep::MakeTrash(s) => {
                    self.mkdirs(&string(s.dir()));
                    s.created(Ok(()))
                }
                ResolveStep::FindKeep(s) => {
                    let found = self.find(s.dir());
                    s.found(found)
                }
                ResolveStep::FindTrash(s) => {
                    let found = self.find(s.dir());
                    s.found(found)
                }
                ResolveStep::Done(cfg) => return Ok(cfg),
                ResolveStep::Failed(e) => return Err(e),
            }
        }
    }

    fn config(&mut self, source: &str) -> Config {
        self.mkdirs(source);
        let raw = raw_config(source);
        self.resolve(raw).unwrap()
    }

    fn validate(&self, cfg: &Config, rel: &str) -> Result<Vec<u8>, PathError> {
        let canonical = match lookup_path(&cfg.source_dir, rel) {
            Ok(path) => self.canonical(&path),
            Err(_) => None,
        };
        validate_relpath(cfg, rel, canonical)
    }

    fn validate_under(&self, base: &[u8], rel: &str) -> Result<Vec<u8>, PathError> {
        let canonical = match lookup_path(base, rel) {
            Ok(path) => self.canonical(&path),
            Err(_) => None,
        };
        validate_relpath_under(base, rel, &vec![], canonical)
    }
}

fn raw_config(source: &str) -> RawConfig {
    let source = source.to_string();
    RawConfig::load(
        move |k: &str| match k {
            "SOURCE_DIR" => Some(source.clone()),
            _ => None,
        },
        |_: &str| true,
    )
    .unwrap()
}

const SOURCE: &str = "/srv/output";

/// A source with images in and out of the way.
fn setup() -> (Tree, Config) {
    let mut tree = Tree::new();
    let cfg = tree.config(SOURCE);
    for rel in [
        "2026-06-01/Image_00001_.png",
        "Image_00001_.png",
        "Image_00002_.png",
        "UPPER.PNG",
        "proj-a/Image_00009_.png",
        "proj-a/keep/inside.png",
        ".hidden.png",
        "notes.txt",
        "keep/kept.png",
        "trash/t.png",
    ] {
        tree.write(&format!("{SOURCE}/{rel}"), b"x");
    }
    (tree, cfg)
}

fn expected_order() -> Vec<String> {
    [
        "2026-06-01/Image_00001_.png",
        "Image_00001_.png",
        "Image_00002_.png",
        "UPPER.PNG",
        "proj-a/Image_00009_.png",
        "proj-a/keep/inside.png",
    ]
    .iter()
    .map(|s| s.to_string())
    .collect()
}

#[test]
fn resolve_creates_and_canonicalizes() {
    let mut tree = Tree::new();
    tree.mkdirs(SOURCE);
    let raw = raw_config(SOURCE);
    let cfg = tree.resolve(raw).expect("resolve should succeed");
    assert!(tree.dirs.contains(&string(&cfg.keep_dir)));
    assert!(tree.dirs.contains(&string(&cfg.trash_dir)));
    assert!(is_under(&cfg.keep_dir, &cfg.source_dir));
    assert!(is_under(&cfg.trash_dir, &cfg.source_dir));
}

#[test]
fn resolve_fails_when_source_missing() {
    let mut tree = Tree::new();
    let raw = raw_config("/nonexistent/triage/source/xyz");
    assert!(tree.resolve(raw).is_err());
    assert!(tree.dirs.is_empty(), "nothing is created");
}

#[test]
fn resolve_takes_the_canonical_directories() {
    let mut tree = Tree::new();
    tree.mkdirs("/real");
    tree.links.insert("/link".to_string(), "/real".to_string());
    let cfg = tree.resolve(raw_config("/link")).unwrap();
    assert_eq!(cfg.source_dir, b"/real");
    assert_eq!(cfg.keep_dir, b"/link/keep");
    assert_eq!(cfg.undo_depth, 50);
    assert_eq!(cfg.extensions.len(), 4);
    assert_eq!(cfg.bind_addr, "0.0.0.0:8080");
}

#[test]
fn resolve_says_what_failed() {
    let missing = || std::io::Error::other("gone");
    let failed = |step: ResolveStep| match step {
        ResolveStep::Failed(e) => e.message(),
        _ => panic!("expected a failure"),
    };
    let make_keep = || match raw_config("/s").resolve() {
        ResolveStep::FindSource(s) => match s.found(Ok(b"/s".to_vec())) {
            ResolveStep::MakeKeep(k) => k,
            _ => panic!("keep comes next"),
        },
        _ => panic!("the source comes first"),
    };
    let make_trash = || match make_keep().created(Ok(())) {
        ResolveStep::MakeTrash(t) => t,
        _ => panic!("trash comes next"),
    };
    let find_keep = || match make_trash().created(Ok(())) {
        ResolveStep::FindKeep(k) => k,
        _ => panic!("keep comes next"),
    };
    match raw_config("/s").resolve() {
        ResolveStep::FindSource(s) => assert_eq!(
            failed(s.found(Err(missing()))),
            "cannot canonicalize /s: gone"
        ),
        _ => panic!("the source comes first"),
    }
    assert_eq!(failed(make_keep().created(Err(missing()))), "gone");
    assert_eq!(failed(make_trash().created(Err(missing()))), "gone");
    assert_eq!(
        failed(find_keep().found(Err(missing()))),
        "cannot canonicalize /s/keep: gone"
    );
    match find_keep().found(Ok(b"/s/keep".to_vec())) {
        ResolveStep::FindTrash(t) => assert_eq!(
            failed(t.found(Err(missing()))),
            "cannot canonicalize /s/trash: gone"
        ),
        _ => panic!("trash comes last"),
    }
}

#[test]
fn asc_enumerates_in_lexicographic_order() {
    let (tree, cfg) = setup();
    assert_eq!(tree.drain(&cfg), expected_order());
}

#[test]
fn desc_enumerates_in_reverse() {
    let (tree, mut cfg) = setup();
    cfg.order = Order::Desc;
    let mut expected = expected_order();
    expected.reverse();
    assert_eq!(tree.drain(&cfg), expected);
}

#[test]
fn first_call_returns_global_min_and_max() {
    let (tree, mut cfg) = setup();
    assert_eq!(
        tree.next(&cfg, None).unwrap().as_deref(),
        Some("2026-06-01/Image_00001_.png")
    );
    cfg.order = Order::Desc;
    assert_eq!(
        tree.next(&cfg, None).unwrap().as_deref(),
        Some("proj-a/keep/inside.png")
    );
}

#[test]
fn next_ignores_whether_the_shown_image_is_there() {
    let (mut tree, cfg) = setup();
    let shown = "Image_00001_.png";
    let before = tree.next(&cfg, Some(shown)).unwrap();
    tree.files.remove(&format!("{SOURCE}/{shown}"));
    assert_eq!(tree.next(&cfg, Some(shown)).unwrap(), before);
    assert_eq!(before.as_deref(), Some("Image_00002_.png"));
}

#[test]
fn keep_and_trash_are_pruned() {
    let (tree, cfg) = setup();
    let all = tree.drain(&cfg);
    assert!(!all.iter().any(|r| r.starts_with("keep/")));
    assert!(!all.iter().any(|r| r.starts_with("trash/")));
}

#[test]
fn confusing_keep_subfolder_is_not_pruned() {
    let (tree, cfg) = setup();
    let all = tree.drain(&cfg);
    assert!(all.iter().any(|r| r == "proj-a/keep/inside.png"));
}

#[test]
fn hidden_and_nonimage_excluded() {
    let (tree, cfg) = setup();
    let all = tree.drain(&cfg);
    assert!(!all.iter().any(|r| r == ".hidden.png"));
    assert!(!all.iter().any(|r| r == "notes.txt"));
}

#[test]
fn uppercase_extension_matches() {
    let (tree, cfg) = setup();
    assert!(tree.drain(&cfg).iter().any(|r| r == "UPPER.PNG"));
}

#[test]
fn extension_needs_a_stem() {
    let (_, cfg) = setup();
    assert!(has_allowed_ext(&cfg, "a.png"));
    assert!(has_allowed_ext(&cfg, "a.b.JpEg"));
    assert!(!has_allowed_ext(&cfg, ".png"));
    assert!(!has_allowed_ext(&cfg, "png"));
    assert!(!has_allowed_ext(&cfg, "a.png."));
}

#[test]
fn count_matches_enumeration() {
    let (tree, cfg) = setup();
    assert_eq!(tree.count(&cfg).unwrap(), expected_order().len());
}

#[test]
fn empty_source_yields_none_and_zero() {
    let mut tree = Tree::new();
    let cfg = tree.config(SOURCE);
    assert_eq!(tree.next(&cfg, None).unwrap(), None);
    assert_eq!(tree.count(&cfg).unwrap(), 0);
}

#[test]
fn symlinks_and_odd_entries_are_skipped() {
    let (mut tree, cfg) = setup();
    tree.links
        .insert(format!("{SOURCE}/link.png"), "/elsewhere/x.png".to_string());
    assert_eq!(tree.drain(&cfg), expected_order());

    let step = find_next(&cfg, None);
    let entries = vec![
        DirEntry {
            name: None,
            kind: Some(EntryKind::File),
        },
        DirEntry {
            name: Some("a.png".to_string()),
            kind: None,
        },
        DirEntry {
            name: Some("b.png".to_string()),
            kind: Some(EntryKind::Other),
        },
        DirEntry {
            name: Some("c.png".to_string()),
            kind: Some(EntryKind::File),
        },
    ];
    match step {
        FindStep::ReadDir(s) => match s.listed(Listing::Entries(entries)) {
            FindStep::Done(found) => assert_eq!(found.as_deref(), Some("c.png")),
            _ => panic!("one directory is all there is"),
        },
        _ => panic!("a search starts with a directory"),
    }
}

#[test]
fn unreadable_directory_fails_and_missing_one_is_empty() {
    let (mut tree, cfg) = setup();
    tree.locked = Some(format!("{SOURCE}/proj-a"));
    assert!(tree.next(&cfg, None).is_err());
    assert!(tree.count(&cfg).is_err());
    tree.locked = Some(format!("{SOURCE}/keep"));
    assert!(tree.next(&cfg, None).is_ok());
    assert!(tree.page(&cfg, KeepSort::Name, true, None, 5).is_err());
    assert!(tree.sample(&cfg, 5, 1).is_err());

    match find_next(&cfg, None) {
        FindStep::ReadDir(s) => {
            assert!(matches!(
                s.listed(Listing::NotFound),
                FindStep::Done(None)
            ));
        }
        _ => panic!("a search starts with a directory"),
    }
}

#[test]
fn best_so_far_only_improves() {
    let mut best = None;
    for rel in ["m", "c", "x", "a", "f"] {
        consider(rel, Some("b"), Order::Asc, &mut best);
    }
    assert_eq!(best.as_deref(), Some("c"));
    let mut best = None;
    for rel in ["m", "c", "x", "a", "f"] {
        consider(rel, Some("m"), Order::Desc, &mut best);
    }
    assert_eq!(best.as_deref(), Some("f"));
}

fn write_keep(tree: &mut Tree, rel: &str) {
    tree.write(&format!("{SOURCE}/keep/{rel}"), b"x");
}

fn set_keep_mtime(tree: &mut Tree, rel: &str, secs: u128) {
    let file = tree.files.get_mut(&format!("{SOURCE}/keep/{rel}")).unwrap();
    file.1 = Some(secs * 1000);
}

fn rels(items: &[KeepItem]) -> Vec<&str> {
    items.iter().map(|i| i.rel.as_str()).collect()
}

#[test]
fn keep_page_lists_by_name_with_after_chaining() {
    let (mut tree, cfg) = setup();
    write_keep(&mut tree, "a.png");
    write_keep(&mut tree, "sub/b.png");
    write_keep(&mut tree, ".hidden.png");
    write_keep(&mut tree, "notes.txt");

    // Full listing, descending relpath.
    let all = tree.page(&cfg, KeepSort::Name, true, None, 100).unwrap();
    assert_eq!(rels(&all), vec!["sub/b.png", "kept.png", "a.png"]);

    // Bounded pages chain via the (0, rel) cursor and drain cleanly.
    let p1 = tree.page(&cfg, KeepSort::Name, true, None, 2).unwrap();
    assert_eq!(rels(&p1), vec!["sub/b.png", "kept.png"]);
    let p2 = tree
        .page(&cfg, KeepSort::Name, true, Some((0, "kept.png")), 2)
        .unwrap();
    assert_eq!(rels(&p2), vec!["a.png"]);
    let p3 = tree
        .page(&cfg, KeepSort::Name, true, Some((0, "a.png")), 2)
        .unwrap();
    assert!(p3.is_empty());

    // Ascending flips the order; zero limit returns nothing.
    let asc = tree.page(&cfg, KeepSort::Name, false, None, 100).unwrap();
    assert_eq!(rels(&asc), vec!["a.png", "kept.png", "sub/b.png"]);
    assert!(tree
        .page(&cfg, KeepSort::Name, true, None, 0)
        .unwrap()
        .is_empty());

    // Name sort still reports the display mtime of the selected page.
    set_keep_mtime(&mut tree, "a.png", 1_000);
    let one = tree.page(&cfg, KeepSort::Name, false, None, 1).unwrap();
    assert_eq!(one[0].mtime_ms, 1_000_000);
}

#[test]
fn keep_page_sorts_by_mtime_with_cursor_and_tiebreak() {
    let (mut tree, cfg) = setup();
    write_keep(&mut tree, "a.png");
    write_keep(&mut tree, "sub/b.png");
    set_keep_mtime(&mut tree, "a.png", 3_000);
    set_keep_mtime(&mut tree, "kept.png", 2_000);
    set_keep_mtime(&mut tree, "sub/b.png", 1_000);

    // Newest first, independent of relpath order.
    let all = tree.page(&cfg, KeepSort::Mtime, true, None, 100).unwrap();
    assert_eq!(rels(&all), vec!["a.png", "kept.png", "sub/b.png"]);
    assert_eq!(all[0].mtime_ms, 3_000_000);

    // The compound cursor (mtime_ms, rel) continues mid-list.
    let p1 = tree.page(&cfg, KeepSort::Mtime, true, None, 2).unwrap();
    assert_eq!(rels(&p1), vec!["a.png", "kept.png"]);
    let cursor = (p1[1].mtime_ms, p1[1].rel.as_str());
    let p2 = tree
        .page(&cfg, KeepSort::Mtime, true, Some(cursor), 2)
        .unwrap();
    assert_eq!(rels(&p2), vec!["sub/b.png"]);

    // Oldest first.
    let asc = tree.page(&cfg, KeepSort::Mtime, false, None, 100).unwrap();
    assert_eq!(rels(&asc), vec!["sub/b.png", "kept.png", "a.png"]);

    // Equal mtimes fall back to relpath order and still paginate stably.
    set_keep_mtime(&mut tree, "a.png", 2_000);
    set_keep_mtime(&mut tree, "sub/b.png", 2_000);
    let tied = tree.page(&cfg, KeepSort::Mtime, true, None, 100).unwrap();
    assert_eq!(rels(&tied), vec!["sub/b.png", "kept.png", "a.png"]);
    let t1 = tree.page(&cfg, KeepSort::Mtime, true, None, 1).unwrap();
    let cursor = (t1[0].mtime_ms, t1[0].rel.as_str());
    let t2 = tree
        .page(&cfg, KeepSort::Mtime, true, Some(cursor), 2)
        .unwrap();
    assert_eq!(rels(&t2), vec!["kept.png", "a.png"]);
}

#[test]
fn file_without_time_is_left_out_by_time_and_zero_by_name() {
    let (mut tree, cfg) = setup();
    write_keep(&mut tree, "a.png");
    set_keep_mtime(&mut tree, "a.png", 5);
    let by_time = tree.page(&cfg, KeepSort::Mtime, false, None, 10).unwrap();
    assert_eq!(rels(&by_time), vec!["a.png"]);
    let by_name = tree.page(&cfg, KeepSort::Name, false, None, 10).unwrap();
    assert_eq!(rels(&by_name), vec!["a.png", "kept.png"]);
    assert_eq!(by_name[1].mtime_ms, 0);
}

#[test]
fn pages_of_any_size_make_up_the_listing() {
    let (mut tree, cfg) = setup();
    for i in 0..23u32 {
        write_keep(&mut tree, &format!("d{}/x{i:02}.png", i % 4));
        set_keep_mtime(&mut tree, &format!("d{}/x{i:02}.png", i % 4), (i % 7) as u128);
    }
    set_keep_mtime(&mut tree, "kept.png", 3);
    for sort in [KeepSort::Name, KeepSort::Mtime] {
        for desc in [true, false] {
            let all = tree.page(&cfg, sort, desc, None, 1000).unwrap();
            assert_eq!(all.len(), 24);
            for size in [1, 5, 24] {
                let mut joined: Vec<KeepItem> = Vec::new();
                loop {
                    let page = {
                        let after = joined.last().map(|i| {
                            let time = match sort {
                                KeepSort::Name => 0,
                                KeepSort::Mtime => i.mtime_ms,
                            };
                            (time, i.rel.as_str())
                        });
                        tree.page(&cfg, sort, desc, after, size).unwrap()
                    };
                    assert!(page.len() <= size);
                    if page.is_empty() {
                        break;
                    }
                    joined.extend(page);
                }
                assert_eq!(joined, all);
            }
        }
    }
}

#[test]
fn heap_keeps_the_worst_last() {
    let mut heap = PageHeap::new(true);
    assert_eq!(heap.worst(), None);
    for (time, rel) in [(2, "b"), (9, "a"), (2, "c"), (1, "z")] {
        heap.push((time, rel.to_string()));
    }
    assert_eq!(heap.len(), 4);
    assert_eq!(heap.worst(), Some((1, "z")));
    heap.pop();
    assert_eq!(heap.worst(), Some((2, "b")));
    let sorted = heap.into_sorted();
    assert_eq!(
        sorted,
        vec![
            (9, "a".to_string()),
            (2, "c".to_string()),
            (2, "b".to_string())
        ]
    );
}

#[test]
fn times_wrap_at_the_width_of_the_field() {
    assert_eq!(mtime_ms(None), None);
    assert_eq!(mtime_ms(Some(1_700_000_000_000)), Some(1_700_000_000_000));
    assert_eq!(mtime_ms(Some((1u128 << 64) + 5)), Some(5));
}

fn keep_universe(tree: &Tree, cfg: &Config) -> Vec<String> {
    let mut all = tree.page(cfg, KeepSort::Name, false, None, 1000).unwrap();
    all.sort_by(|a, b| a.rel.cmp(&b.rel));
    all.into_iter().map(|i| i.rel).collect()
}

#[test]
fn sample_keep_is_deterministic_and_a_valid_subset() {
    let (mut tree, cfg) = setup();
    for name in ["a.png", "b.png", "sub/c.png", "sub/d.png", "e.png"] {
        write_keep(&mut tree, name);
    }
    let universe = keep_universe(&tree, &cfg);

    let first = tree.sample(&cfg, 3, 42).unwrap();
    assert_eq!(first.len(), 3);
    let mut rels: Vec<&str> = first.iter().map(|i| i.rel.as_str()).collect();
    rels.sort_unstable();
    rels.dedup();
    assert_eq!(rels.len(), 3, "sample must not repeat an image");
    assert!(rels.iter().all(|r| universe.iter().any(|u| u == r)));

    let again = tree.sample(&cfg, 3, 42).unwrap();
    let names = |v: &[KeepItem]| v.iter().map(|i| i.rel.clone()).collect::<Vec<_>>();
    assert_eq!(names(&first), names(&again));
}

#[test]
fn sample_keep_handles_boundaries() {
    let (mut tree, cfg) = setup();
    for name in ["a.png", "b.png"] {
        write_keep(&mut tree, name);
    }
    let universe = keep_universe(&tree, &cfg);

    assert!(tree.sample(&cfg, 0, 1).unwrap().is_empty());

    let mut all: Vec<String> = tree
        .sample(&cfg, 10, 7)
        .unwrap()
        .into_iter()
        .map(|i| i.rel)
        .collect();
    all.sort();
    assert_eq!(all, universe);
}

#[test]
fn sample_keep_empty_keep_is_empty() {
    let (mut tree, cfg) = setup();
    tree.files.remove(&format!("{SOURCE}/keep/kept.png"));
    assert!(tree.sample(&cfg, 5, 99).unwrap().is_empty());
}

#[test]
fn sample_shows_modification_times() {
    let (mut tree, cfg) = setup();
    set_keep_mtime(&mut tree, "kept.png", 77);
    let items = tree.sample(&cfg, 2, 3).unwrap();
    assert_eq!(rels(&items), vec!["kept.png"]);
    assert_eq!(items[0].mtime_ms, 77_000);
}

#[test]
fn generator_draws_known_numbers() {
    let mut rng = SplitMix64::new(0);
    assert_eq!(rng.next_u64(), 0xE220_A839_7B1D_CDAF);
    assert_eq!(rng.next_u64(), 0x6E78_9E6A_A1B9_65F4);
    let mut rng = SplitMix64::new(1234567);
    assert_eq!(rng.next_u64(), 6457827717110365317);
    assert_eq!(rng.next_below(10), 3203168211198807973 % 10);
}

#[test]
fn sample_follows_the_generator() {
    let (mut tree, cfg) = setup();
    tree.files.remove(&format!("{SOURCE}/keep/kept.png"));
    for i in 0..9 {
        write_keep(&mut tree, &format!("{i}.png"));
    }
    let mut rng = SplitMix64::new(5);
    let mut expected: Vec<String> = Vec::new();
    for i in 0..9u64 {
        let name = format!("{i}.png");
        if expected.len() < 4 {
            expected.push(name);
        } else {
            let j = rng.next_below(i + 1) as usize;
            if j < 4 {
                expected[j] = name;
            }
        }
    }
    let sample = tree.sample(&cfg, 4, 5).unwrap();
    assert_eq!(rels(&sample), expected);
}

#[test]
fn move_preserves_relative_subpath() {
    let mut tree = Tree::new();
    let rel = "2026-06-01/Image_00001_.png";
    let src = format!("{SOURCE}/{rel}");
    tree.write(&src, b"img");

    let keep = format!("{SOURCE}/keep");
    let entry = tree.perform(&keep, &src, rel).unwrap();
    assert_eq!(entry.dst, format!("{keep}/{rel}").as_bytes());
    assert!(tree.is_file(&string(&entry.dst)));
    assert!(!tree.is_file(&src), "source file should be gone after move");
    assert_eq!(entry.original_rel, rel);
}

#[test]
fn move_collision_gets_numeric_suffix() {
    let mut tree = Tree::new();
    let rel = "a.png";
    let keep = format!("{SOURCE}/keep");
    tree.write(&format!("{keep}/a.png"), b"existing");
    let src = format!("{SOURCE}/{rel}");
    tree.write(&src, b"new");

    let entry = tree.perform(&keep, &src, rel).unwrap();
    assert_eq!(entry.dst, format!("{keep}/a_1.png").as_bytes());
    assert_eq!(tree.read(&entry.dst).unwrap(), b"new");
    assert_eq!(
        tree.read(format!("{keep}/a.png").as_bytes()).unwrap(),
        b"existing"
    );
}

#[test]
fn undo_restores_to_original_rel() {
    let mut tree = Tree::new();
    let rel = "sub/x.png";
    let src = format!("{SOURCE}/{rel}");
    let keep = format!("{SOURCE}/keep");
    tree.write(&src, b"img");

    let mut stack = UndoStack::new(50);
    stack.push(tree.perform(&keep, &src, rel).unwrap());
    assert_eq!(stack.len(), 1);

    let undone = tree.take_back(SOURCE, &mut stack).unwrap();
    assert_eq!(undone.restored_rel, rel);
    assert_eq!(undone.undid_dst, format!("{keep}/{rel}").as_bytes());
    assert!(
        tree.is_file(&src),
        "file should be back at original location"
    );
    assert!(stack.is_empty());
}

#[test]
fn undo_empty_stack_errors() {
    let mut tree = Tree::new();
    let mut stack = UndoStack::new(50);
    assert!(matches!(
        tree.take_back(SOURCE, &mut stack),
        Err(UndoError::Empty)
    ));
}

#[test]
fn undo_consumes_entry_when_dst_gone() {
    let mut tree = Tree::new();
    let rel = "g.png";
    let src = format!("{SOURCE}/{rel}");
    tree.write(&src, b"img");
    let mut stack = UndoStack::new(50);
    let entry = tree.perform("/srv/keep", &src, rel).unwrap();
    let dst = entry.dst.clone();
    stack.push(entry);

    tree.files.remove(&string(&dst));

    match tree.take_back(SOURCE, &mut stack) {
        Err(UndoError::DstGone(p)) => assert_eq!(p, dst),
        other => panic!("expected DstGone, got {other:?}"),
    }
    assert!(stack.is_empty(), "dead entry must be consumed");
}

#[test]
fn undo_collision_resolves_when_name_reappeared() {
    let mut tree = Tree::new();
    let rel = "dup.png";
    let src = format!("{SOURCE}/{rel}");
    tree.write(&src, b"original");
    let mut stack = UndoStack::new(50);
    stack.push(tree.perform("/srv/keep", &src, rel).unwrap());

    tree.write(&src, b"regenerated");

    let undone = tree.take_back(SOURCE, &mut stack).unwrap();
    assert_eq!(undone.restored_rel, "dup_1.png");
    assert_eq!(
        tree.read(format!("{SOURCE}/dup_1.png").as_bytes()).unwrap(),
        b"original"
    );
    assert_eq!(tree.read(src.as_bytes()).unwrap(), b"regenerated");
}

#[test]
fn stack_is_bounded() {
    let mut stack = UndoStack::new(2);
    for i in 0..3 {
        stack.push(UndoEntry {
            dst: format!("/x/{i}").into_bytes(),
            original_rel: format!("{i}"),
        });
    }
    assert_eq!(stack.len(), 2);
}

#[test]
fn last_move_is_undone_first() {
    let mut stack = UndoStack::new(2);
    for i in 0..3 {
        stack.push(UndoEntry {
            dst: format!("/x/{i}").into_bytes(),
            original_rel: format!("{i}"),
        });
    }
    assert_eq!(undo(b"/s", &mut stack).unwrap().dst(), b"/x/2");
    assert_eq!(undo(b"/s", &mut stack).unwrap().dst(), b"/x/1");
    assert!(matches!(undo(b"/s", &mut stack), Err(UndoError::Empty)));
    assert_eq!(UndoStack::new(0).len(), 0);
}

#[test]
fn cross_device_error_is_classified() {
    assert!(is_cross_device(&std::io::Error::from_raw_os_error(EXDEV)));
    assert!(!is_cross_device(&std::io::Error::from_raw_os_error(2))); // ENOENT
    assert!(!is_cross_device(&std::io::Error::other("not an os error")));
}

#[test]
fn move_to_another_device_is_a_misconfiguration() {
    let mut tree = Tree::new();
    tree.foreign = Some("/mnt".to_string());
    tree.write("/srv/output/a.png", b"x");
    let err = tree
        .perform("/mnt/keep", "/srv/output/a.png", "a.png")
        .unwrap_err();
    assert_eq!(
        err.message(),
        "cross-device rename from /srv/output/a.png to /mnt/keep/a.png: \
         keep/trash must be on the same filesystem as source (EXDEV)"
    );
    assert!(tree.is_file("/srv/output/a.png"));
    let err = tree
        .perform("/srv/keep", "/srv/output/gone.png", "gone.png")
        .unwrap_err();
    assert!(err.message().starts_with("move failed: "));
}

#[test]
fn directory_that_cannot_be_created_ends_the_move() {
    let (plan, step) = perform_move(b"/srv/keep", b"/srv/output/a.png", "a.png");
    let outcome = match step {
        Relocation::CreateDirs(d) => {
            assert_eq!(d.dir(), b"/srv/keep");
            match d.created(Err(std::io::Error::from_raw_os_error(13))) {
                Relocation::Ended(outcome) => outcome,
                other => panic!("expected an end, got {other:?}"),
            }
        }
        other => panic!("expected a directory to create, got {other:?}"),
    };
    assert!(matches!(
        plan.finish(outcome),
        Err(MoveError::Io(e)) if e.raw_os_error() == Some(13)
    ));
}

#[test]
fn candidates_are_numbered_before_the_extension() {
    let names = |desired: &str| {
        let mut search = resolve_collision(desired.as_bytes().to_vec());
        let mut out = vec![string(&search.candidate())];
        for _ in 0..2 {
            search = search.advance();
            out.push(string(&search.candidate()));
        }
        out
    };
    assert_eq!(
        names("/k/sub/a.b.png"),
        vec!["/k/sub/a.b.png", "/k/sub/a.b_1.png", "/k/sub/a.b_2.png"]
    );
    assert_eq!(names("/k/a"), vec!["/k/a", "/k/a_1", "/k/a_2"]);
    assert_eq!(names("/k/.png"), vec!["/k/.png", "/k/.png_1", "/k/.png_2"]);
}

#[test]
fn first_free_name_is_taken() {
    let mut tree = Tree::new();
    for name in ["a.png", "a_1.png", "a_2.png", "a_4.png"] {
        tree.write(&format!("/srv/keep/{name}"), b"old");
    }
    tree.write("/srv/output/a.png", b"new");
    let entry = tree
        .perform("/srv/keep", "/srv/output/a.png", "a.png")
        .unwrap();
    assert_eq!(string(&entry.dst), "/srv/keep/a_3.png");
}

#[test]
fn accepts_file_in_source_root() {
    let mut tree = Tree::new();
    let cfg = tree.config(SOURCE);
    tree.write(&format!("{SOURCE}/Image_00001_.png"), b"x");
    let resolved = tree.validate(&cfg, "Image_00001_.png").unwrap();
    assert_eq!(resolved, format!("{SOURCE}/Image_00001_.png").as_bytes());
}

#[test]
fn accepts_file_in_subdir() {
    let mut tree = Tree::new();
    let cfg = tree.config(SOURCE);
    tree.write(&format!("{SOURCE}/2026-06-01/Image_00007_.png"), b"x");
    let resolved = tree.validate(&cfg, "2026-06-01/Image_00007_.png").unwrap();
    assert!(resolved.ends_with(b"2026-06-01/Image_00007_.png"));
}

#[test]
fn rejects_empty() {
    let mut tree = Tree::new();
    let cfg = tree.config(SOURCE);
    assert_eq!(tree.validate(&cfg, ""), Err(PathError::Empty));
}

#[test]
fn rejects_absolute() {
    let mut tree = Tree::new();
    let cfg = tree.config(SOURCE);
    assert_eq!(
        tree.validate(&cfg, "/etc/passwd"),
        Err(PathError::Absolute)
    );
}

#[test]
fn rejects_parent_traversal() {
    let mut tree = Tree::new();
    let cfg = tree.config(SOURCE);
    assert_eq!(
        tree.validate(&cfg, "../secret.png"),
        Err(PathError::ParentTraversal)
    );
    assert_eq!(
        tree.validate(&cfg, "a/../../secret.png"),
        Err(PathError::ParentTraversal)
    );
}

#[test]
fn rejects_nonexistent() {
    let mut tree = Tree::new();
    let cfg = tree.config(SOURCE);
    assert_eq!(tree.validate(&cfg, "missing.png"), Err(PathError::NotFound));
}

#[test]
fn rejects_path_inside_keep() {
    let mut tree = Tree::new();
    let cfg = tree.config(SOURCE);
    tree.write(&format!("{SOURCE}/keep/kept.png"), b"x");
    assert_eq!(
        tree.validate(&cfg, "keep/kept.png"),
        Err(PathError::InsideDestination)
    );
}

#[test]
fn validate_under_keep_base_accepts_kept_file() {
    let mut tree = Tree::new();
    let cfg = tree.config(SOURCE);
    tree.write(&format!("{SOURCE}/keep/sub/kept.png"), b"x");
    let resolved = tree.validate_under(&cfg.keep_dir, "sub/kept.png").unwrap();
    assert_eq!(resolved, format!("{SOURCE}/keep/sub/kept.png").as_bytes());
    assert_eq!(
        tree.validate_under(&cfg.keep_dir, "../escape.png"),
        Err(PathError::ParentTraversal)
    );
    assert_eq!(
        tree.validate_under(&cfg.keep_dir, "missing.png"),
        Err(PathError::NotFound)
    );
}

#[test]
fn rejects_symlink_escaping_source() {
    let mut tree = Tree::new();
    let cfg = tree.config(SOURCE);
    tree.write("/srv/outside.png", b"x");
    tree.links.insert(
        format!("{SOURCE}/escape.png"),
        "/srv/outside.png".to_string(),
    );
    assert_eq!(
        tree.validate(&cfg, "escape.png"),
        Err(PathError::OutsideSource)
    );
}

#[test]
fn path_errors_say_what_is_wrong() {
    let told = |e: PathError| (ApiError::from_path(e).status, ApiError::from_path(e).message);
    assert_eq!(told(PathError::Empty), (400, "path is empty".to_string()));
    assert_eq!(
        told(PathError::Absolute),
        (400, "path must be relative, not absolute".to_string())
    );
    assert_eq!(
        told(PathError::ParentTraversal),
        (400, "path must not contain '..' components".to_string())
    );
    assert_eq!(
        told(PathError::NotFound),
        (404, "path does not resolve to an existing file".to_string())
    );
    assert_eq!(
        told(PathError::OutsideSource),
        (400, "path escapes the source directory".to_string())
    );
    assert_eq!(
        told(PathError::InsideDestination),
        (400, "path resolves inside keep/trash".to_string())
    );
}

#[test]
fn stats_roll_resets_counters_only_on_day_change() {
    let mut s = Stats {
        day: 1,
        kept: 3,
        trashed: 4,
    };
    s.roll(1);
    assert_eq!((s.kept, s.trashed), (3, 4));
    s.roll(2);
    assert_eq!((s.day, s.kept, s.trashed), (2, 0, 0));
}

#[test]
fn day_of_rolls_at_offset_midnight() {
    assert_eq!(day_of(0, 0), 0);
    assert_eq!(day_of(86_399, 0), 0);
    assert_eq!(day_of(86_400, 0), 1);
    // With +9 (JST) the day flips 9 hours earlier in UTC terms.
    assert_eq!(day_of(86_400 - 9 * 3600, 9), 1);
    assert_eq!(day_of(86_400 - 9 * 3600 - 1, 9), 0);
    // Negative offsets shift the boundary the other way (euclidean
    // division keeps pre-boundary times on the previous day).
    assert_eq!(day_of(3_600, -2), -1);
}

#[test]
fn clock_before_the_epoch_is_the_first_day() {
    assert_eq!(today_index(None, 0), 0);
    assert_eq!(today_index(None, -1), -1);
    assert_eq!(today_index(Some(1_700_000_000), 9), 19676);
    assert!(day_fits(i64::MAX - 100_000, 26));
    assert!(!day_fits(i64::MAX, 1));
    assert!(!day_fits(0, i64::MAX));
}

/// A server with two images.
fn state_with_tree() -> (Tree, AppState) {
    let mut tree = Tree::new();
    let cfg = tree.config(SOURCE);
    tree.write(&format!("{SOURCE}/Image_00001_.png"), b"one");
    tree.write(&format!("{SOURCE}/Image_00002_.png"), b"two");
    (tree, AppState::new(cfg))
}

fn request_move(
    tree: &mut Tree,
    state: &mut AppState,
    rel: &str,
    dest: Destination,
    day: i64,
) -> Result<MoveResponse, ApiError> {
    let canonical = match lookup_path(&state.cfg.source_dir, rel) {
        Ok(path) => tree.canonical(&path),
        Err(_) => None,
    };
    let (pending, step) = move_to(&state.cfg, rel, dest, canonical)?;
    let outcome = tree.run(step);
    assert!(state.stats.has_room(pending.destination(), day));
    pending.finish(outcome, state, day)
}

fn request_undo(
    tree: &mut Tree,
    state: &mut AppState,
    day: i64,
) -> Result<UndoResponse, ApiError> {
    let plan = start_undo(state)?;
    let there = tree.has(plan.dst());
    let (plan, step) = check_undo(plan, there)?;
    let outcome = tree.run(step);
    finish_undo(plan, outcome, state, day)
}

fn request_retriage(
    tree: &mut Tree,
    state: &mut AppState,
    rel: &str,
    to: Retriage,
    day: i64,
) -> Result<MoveResponse, ApiError> {
    let canonical = match lookup_path(&state.cfg.keep_dir, rel) {
        Ok(path) => tree.canonical(&path),
        Err(_) => None,
    };
    let (pending, step) = retriage(&state.cfg, rel, to, canonical)?;
    let outcome = tree.run(step);
    assert_eq!(pending.target(), to);
    pending.finish(outcome, state, day)
}

#[test]
fn count_reports_backlog() {
    let (tree, state) = state_with_tree();
    assert_eq!(tree.count(&state.cfg).unwrap(), 2);
}

#[test]
fn next_returns_min_then_204_when_drained() {
    let (tree, state) = state_with_tree();
    let found = tree.next(&state.cfg, None).unwrap();
    assert_eq!(next_status(&found), 200);
    assert_eq!(found.as_deref(), Some("Image_00001_.png"));
    let found = tree.next(&state.cfg, Some("Image_00002_.png")).unwrap();
    assert_eq!(next_status(&found), 204);
}

#[test]
fn image_serves_png_content_type() {
    let (tree, state) = state_with_tree();
    let abs = tree.validate(&state.cfg, "Image_00001_.png").unwrap();
    let reply = image_reply(&abs, tree.read(&abs)).unwrap();
    assert_eq!(reply.content_type, "image/png");
    assert_eq!(reply.bytes, b"one");
}

#[test]
fn content_type_goes_by_the_extension() {
    let reply = |path: &str| image_reply(path.as_bytes(), Some(vec![])).unwrap();
    assert_eq!(reply("/a/b.JPG").content_type, "image/jpeg");
    assert_eq!(reply("/a/b.webp").content_type, "image/webp");
    assert_eq!(reply("/a/b").content_type, "application/octet-stream");
    assert_eq!(
        reply("/a/b.unknown-thing").content_type,
        "application/octet-stream"
    );
}

#[test]
fn image_missing_is_404() {
    let (tree, state) = state_with_tree();
    let err = tree.validate(&state.cfg, "nope.png").unwrap_err();
    assert_eq!(ApiError::from_path(err).status, 404);
    assert_eq!(image_reply(b"/a.png", None).unwrap_err().status, 404);
}

#[test]
fn keep_then_undo_round_trip() {
    let (mut tree, mut state) = state_with_tree();

    // keep the first image
    let body = request_move(
        &mut tree,
        &mut state,
        "Image_00001_.png",
        Destination::Keep,
        10,
    )
    .unwrap();
    assert_eq!(body.relpath, "Image_00001_.png");
    assert!(body.can_undo);

    // backlog dropped by one
    assert_eq!(tree.count(&state.cfg).unwrap(), 1);

    // undo restores it
    let body = request_undo(&mut tree, &mut state, 10).unwrap();
    assert_eq!(body.relpath, "Image_00001_.png");
    assert!(!body.can_undo);

    assert_eq!(tree.count(&state.cfg).unwrap(), 2);
}

#[test]
fn stats_track_moves_and_undo() {
    let (mut tree, mut state) = state_with_tree();

    // A fresh server reports zeros.
    let v = state.stats_snapshot(10);
    assert_eq!(v.kept, 0);
    assert_eq!(v.trashed, 0);

    // Each move response echoes the updated totals.
    let body = request_move(
        &mut tree,
        &mut state,
        "Image_00001_.png",
        Destination::Keep,
        10,
    )
    .unwrap();
    assert_eq!(body.stats.kept, 1);
    assert_eq!(body.stats.trashed, 0);

    let body = request_move(
        &mut tree,
        &mut state,
        "Image_00002_.png",
        Destination::Trash,
        10,
    )
    .unwrap();
    assert_eq!(body.stats.kept, 1);
    assert_eq!(body.stats.trashed, 1);

    // Undo (the last move was the trash) decrements the matching counter.
    let body = request_undo(&mut tree, &mut state, 10).unwrap();
    assert_eq!(body.stats.kept, 1);
    assert_eq!(body.stats.trashed, 0);

    let v = state.stats_snapshot(10);
    assert_eq!(v.kept, 1);
    assert_eq!(v.trashed, 0);
}

#[test]
fn totals_start_anew_each_day() {
    let (mut tree, mut state) = state_with_tree();
    request_move(
        &mut tree,
        &mut state,
        "Image_00001_.png",
        Destination::Keep,
        10,
    )
    .unwrap();
    let zero = StatsBody {
        kept: 0,
        trashed: 0,
    };
    assert_eq!(state.stats_snapshot(11), zero);
    // The undo of yesterday's move finds the counter at zero already.
    let body = request_undo(&mut tree, &mut state, 11).unwrap();
    assert_eq!(body.stats, zero);
}

#[test]
fn undo_empty_is_409() {
    let (mut tree, mut state) = state_with_tree();
    let err = request_undo(&mut tree, &mut state, 10).unwrap_err();
    assert_eq!(err.status, 409);
    assert_eq!(err.message, "nothing to undo");
}

#[test]
fn undo_of_a_vanished_file_is_409() {
    let (mut tree, mut state) = state_with_tree();
    request_move(
        &mut tree,
        &mut state,
        "Image_00001_.png",
        Destination::Keep,
        10,
    )
    .unwrap();
    tree.files
        .remove(&format!("{SOURCE}/keep/Image_00001_.png"));
    let err = request_undo(&mut tree, &mut state, 10).unwrap_err();
    assert_eq!(err.status, 409);
    assert_eq!(
        err.message,
        format!("cannot undo: {SOURCE}/keep/Image_00001_.png no longer exists")
    );
    // The entry is gone, and the totals are as they were.
    assert!(state.undo.is_empty());
    assert_eq!(state.stats_snapshot(10).kept, 1);
}

#[test]
fn keep_with_traversal_is_400() {
    let (mut tree, mut state) = state_with_tree();
    let err = request_move(
        &mut tree,
        &mut state,
        "../escape.png",
        Destination::Keep,
        10,
    )
    .unwrap_err();
    assert_eq!(err.status, 400);
    assert!(state.undo.is_empty());
    assert_eq!(state.stats_snapshot(10).kept, 0);
}

#[test]
fn failed_move_is_500_and_changes_nothing() {
    let (mut tree, mut state) = state_with_tree();
    tree.foreign = Some(format!("{SOURCE}/keep"));
    let err = request_move(
        &mut tree,
        &mut state,
        "Image_00001_.png",
        Destination::Keep,
        10,
    )
    .unwrap_err();
    assert_eq!(err.status, 500);
    assert!(err.message.contains("(EXDEV)"));
    assert!(state.undo.is_empty());
    assert_eq!(state.stats_snapshot(10).kept, 0);
    assert_eq!(
        ApiError::from_io(&std::io::Error::other("disk on fire")),
        ApiError::internal("disk on fire".to_string())
    );
}

#[test]
fn keep_gallery_list_and_retriage() {
    let (mut tree, mut state) = state_with_tree();
    for rel in ["Image_00001_.png", "Image_00002_.png"] {
        request_move(&mut tree, &mut state, rel, Destination::Keep, 10).unwrap();
    }
    let list = |tree: &Tree, cfg: &Config, after: Option<&str>, limit: Option<usize>| {
        let after = after.map(|a| (0, a));
        tree.page(cfg, KeepSort::Name, true, after, page_limit(limit))
            .unwrap()
            .into_iter()
            .map(|i| i.rel)
            .collect::<Vec<_>>()
    };

    // Listing is newest-first (descending relpath) and paginates via `after`.
    assert_eq!(
        list(&tree, &state.cfg, None, None),
        vec!["Image_00002_.png", "Image_00001_.png"]
    );
    assert_eq!(
        list(&tree, &state.cfg, None, Some(1)),
        vec!["Image_00002_.png"]
    );
    assert_eq!(
        list(&tree, &state.cfg, Some("Image_00002_.png"), Some(1)),
        vec!["Image_00001_.png"]
    );

    // Restore returns the file to the source tree: backlog +1, kept -1.
    let body = request_retriage(
        &mut tree,
        &mut state,
        "Image_00001_.png",
        Retriage::Restore,
        10,
    )
    .unwrap();
    assert_eq!(body.relpath, "Image_00001_.png");
    assert_eq!(body.stats.kept, 1);
    assert_eq!(tree.count(&state.cfg).unwrap(), 1);

    // Demoting a keep straight to trash flips both counters.
    let body = request_retriage(
        &mut tree,
        &mut state,
        "Image_00002_.png",
        Retriage::Demote,
        10,
    )
    .unwrap();
    assert_eq!(body.stats.kept, 0);
    assert_eq!(body.stats.trashed, 1);

    // Neither can be undone: the stack still holds the two moves to keep.
    assert_eq!(state.undo.len(), 2);

    // The gallery is now empty.
    assert!(list(&tree, &state.cfg, None, None).is_empty());
}

#[test]
fn keep_gallery_rejects_traversal_and_missing() {
    let (mut tree, mut state) = state_with_tree();
    let err = request_retriage(
        &mut tree,
        &mut state,
        "../escape.png",
        Retriage::Restore,
        10,
    )
    .unwrap_err();
    assert_eq!(err.status, 400);
    assert_eq!(
        validate_kept(&state.cfg, "missing.png", None)
            .unwrap_err()
            .status,
        404
    );
    write_keep(&mut tree, "k.png");
    let path = format!("{SOURCE}/keep/k.png").into_bytes();
    assert_eq!(
        validate_kept(&state.cfg, "k.png", tree.canonical(&path)).unwrap(),
        path
    );
}

#[test]
fn pages_are_limited() {
    assert_eq!(page_limit(None), 200);
    assert_eq!(page_limit(Some(0)), 0);
    assert_eq!(page_limit(Some(200)), 200);
    assert_eq!(page_limit(Some(5000)), 200);
}

#[test]
fn meta_for_plain_png_is_empty() {
    let file = build(b"/srv/output").swap_remove(1);
    let meta = extract_meta(Some(file.bytes.as_slice()));
    assert_eq!(meta.raw, None);
    assert_eq!(meta.prompts.len(), 0);
}

/// A tree with the fixtures.
fn fixture_config() -> (Tree, Config) {
    let mut tree = Tree::new();
    let cfg = tree.config(SOURCE);
    write_fixtures(&mut tree);
    (tree, cfg)
}

fn write_fixtures(tree: &mut Tree) {
    for file in build(SOURCE.as_bytes()) {
        tree.mkdirs(&string(&file.dir.unwrap()));
        tree.write(&string(&file.path), &file.bytes);
    }
}

#[test]
fn enumeration_order_and_prune() {
    let (tree, cfg) = fixture_config();
    let all = tree.drain(&cfg);

    // Exactly the seven enumerable images, in byte-lexicographic order.
    assert_eq!(
        all,
        vec![
            "2026-06-01/Image_00001_.png",
            "2026-06-01/Image_00002_.png",
            "Image_00001_.png",
            "Image_00002_.png",
            "Image_00003_.png",
            "proj-a/Image_00009_.png",
            "proj-a/keep/inside.png",
        ]
    );

    // The confusing "keep" subfolder is enumerated; real KEEP/TRASH are pruned.
    assert!(all.iter().any(|r| r == "proj-a/keep/inside.png"));
    assert!(!all.iter().any(|r| r.starts_with("keep/")));
    assert!(!all.iter().any(|r| r.starts_with("trash/")));

    assert_eq!(tree.count(&cfg).unwrap(), 7);
}

#[test]
fn desc_is_reverse_of_asc() {
    let (tree, mut cfg) = fixture_config();
    let asc = tree.drain(&cfg);
    cfg.order = Order::Desc;
    let mut desc = tree.drain(&cfg);
    desc.reverse();
    assert_eq!(asc, desc);
}

#[test]
fn meta_extraction_variants() {
    let (tree, _) = fixture_config();
    let meta = |rel: &str| {
        let bytes = tree.read(format!("{SOURCE}/{rel}").as_bytes()).unwrap();
        extract_meta(Some(bytes.as_slice()))
    };

    // Graph present: positive/negative extracted.
    let m = meta("Image_00001_.png");
    assert!(m.raw.is_some());
    assert_eq!(m.prompts.len(), 1);
    assert!(m.prompts[0]
        .positive
        .as_deref()
        .unwrap()
        .contains("serene mountain lake"));
    assert!(m.prompts[0].negative.as_deref().unwrap().contains("blurry"));

    // Plain PNG: no metadata at all.
    let m = meta("Image_00002_.png");
    assert!(m.raw.is_none());
    assert!(m.prompts.is_empty());

    // Broken JSON: raw text shown, no prompts (graceful fallback).
    let m = meta("Image_00003_.png");
    assert_eq!(m.raw.as_deref(), Some("{ this is not valid json"));
    assert!(m.prompts.is_empty());
}

#[test]
fn move_preserves_subpath_and_undo_round_trips() {
    let (mut tree, cfg) = fixture_config();
    let rel = "2026-06-01/Image_00001_.png";
    let source_abs = format!("{SOURCE}/{rel}");
    assert!(tree.is_file(&source_abs));

    let mut stack = UndoStack::new(cfg.undo_depth);

    // keep: relative subpath preserved under KEEP_DIR.
    let keep = string(&cfg.keep_dir);
    let entry = tree.perform(&keep, &source_abs, rel).unwrap();
    assert_eq!(string(&entry.dst), format!("{keep}/{rel}"));
    assert!(tree.is_file(&string(&entry.dst)));
    assert!(!tree.is_file(&source_abs));
    stack.push(entry);

    // It is now pruned from enumeration (lives under KEEP_DIR).
    assert!(!tree.drain(&cfg).iter().any(|r| r == rel));

    // undo restores it to the original relative path; it re-enters the queue.
    let restored = tree.take_back(SOURCE, &mut stack).unwrap();
    assert_eq!(restored.restored_rel, rel);
    assert!(tree.is_file(&source_abs));
    assert!(tree.drain(&cfg).iter().any(|r| r == rel));
}

#[test]
fn gen_fixtures_builder_is_idempotent() {
    let mut tree = Tree::new();
    write_fixtures(&mut tree);
    let once = tree.files.clone();
    write_fixtures(&mut tree);
    assert_eq!(tree.files, once);
    assert!(tree.is_file(&format!("{SOURCE}/Image_00001_.png")));
}

#[test]
fn every_shown_image_is_accepted() {
    let (tree, cfg) = setup();
    for rel in tree.drain(&cfg) {
        assert_eq!(
            tree.validate(&cfg, &rel).unwrap(),
            format!("{SOURCE}/{rel}").as_bytes()
        );
    }
    for item in tree.page(&cfg, KeepSort::Name, true, None, 10).unwrap() {
        assert_eq!(
            tree.validate_under(&cfg.keep_dir, &item.rel).unwrap(),
            format!("{SOURCE}/keep/{}", item.rel).as_bytes()
        );
    }
}

#[test]
fn moved_image_is_not_shown_even_under_a_new_name() {
    let (mut tree, mut state) = state_with_tree();
    tree.write(&format!("{SOURCE}/trash/Image_00001_.png"), b"older");
    request_move(
        &mut tree,
        &mut state,
        "Image_00001_.png",
        Destination::Trash,
        10,
    )
    .unwrap();
    assert!(tree.is_file(&format!("{SOURCE}/trash/Image_00001__1.png")));
    assert_eq!(tree.drain(&state.cfg), vec!["Image_00002_.png"]);
    let body = request_undo(&mut tree, &mut state, 10).unwrap();
    assert_eq!(body.relpath, "Image_00001_.png");
    assert_eq!(body.stats.trashed, 0);
}

#[test]
fn paths_that_are_no_text_are_shown_with_replacements() {
    let gone = UndoError::DstGone(b"/k/\xff.png".to_vec());
    assert_eq!(
        gone.message(),
        "cannot undo: /k/\u{fffd}.png no longer exists"
    );
    let search = resolve_collision(b"/k/\xff.png".to_vec());
    assert_eq!(search.candidate(), b"/k/\xff.png");
    assert_eq!(
        search.advance().candidate(),
        "/k/\u{fffd}_1.png".as_bytes()
    );
}

#[test]
fn undo_reports_the_name_as_it_is() {
    let mut tree = Tree::new();
    let rel = "a\\b.png";
    let src = format!("{SOURCE}/{rel}");
    tree.write(&src, b"x");
    let mut stack = UndoStack::new(1);
    stack.push(tree.perform("/srv/keep", &src, rel).unwrap());
    let undone = tree.take_back(SOURCE, &mut stack).unwrap();
    assert_eq!(undone.restored_rel, "a\\b.png");
    assert!(tree.is_file(&src));
}

#[test]
fn move_and_undo_leave_every_file_as_it_was() {
    for source in [SOURCE, "/", "data/out", "./out", "out/"] {
        let slash = if source.ends_with('/') { "" } else { "/" };
        for rel in ["x.png", "sub/x.png", "a\\b.png", "sub/noext", "sub/.x.png"] {
            let mut tree = Tree::new();
            let src = format!("{source}{slash}{rel}");
            tree.write(&src, b"img");
            tree.write(&format!("/srv/keep/{rel}"), b"taken");
            tree.write(&format!("{source}{slash}other.png"), b"other");
            let before = tree.files.clone();

            let mut stack = UndoStack::new(2);
            stack.push(UndoEntry {
                dst: b"/srv/keep/old.png".to_vec(),
                original_rel: "old.png".to_string(),
            });
            let entry = tree.perform("/srv/keep", &src, rel).unwrap();
            let dst = entry.dst.clone();
            assert_ne!(dst, format!("/srv/keep/{rel}").as_bytes());
            stack.push(entry);
            assert_ne!(tree.files, before);

            let undone = tree.take_back(source, &mut stack).unwrap();
            assert_eq!(undone.restored_rel, rel);
            assert_eq!(undone.undid_dst, dst);
            assert_eq!(tree.files, before);
            assert_eq!(stack.len(), 1);
            assert_eq!(undo(b"/s", &mut stack).unwrap().dst(), b"/srv/keep/old.png");
        }
    }
}

#[test]
fn undo_reports_where_the_file_is() {
    for rel in ["dup.png", "sub/dup.png", "sub/dup", "a\\b.png"] {
        let mut tree = Tree::new();
        let src = format!("{SOURCE}/{rel}");
        tree.write(&src, b"original");
        let mut stack = UndoStack::new(1);
        stack.push(tree.perform("/srv/keep", &src, rel).unwrap());
        tree.write(&src, b"regenerated");
        let before = tree.files.clone();

        let undone = tree.take_back(SOURCE, &mut stack).unwrap();
        let reported = format!("{SOURCE}/{}", undone.restored_rel);
        assert_ne!(reported, src);
        assert!(!before.contains_key(&reported));
        assert_eq!(tree.read(reported.as_bytes()).unwrap(), b"original");
        assert!(!tree.has(&undone.undid_dst));
        let mut expected = before;
        let file = expected.remove(&string(&undone.undid_dst)).unwrap();
        expected.insert(reported, file);
        assert_eq!(tree.files, expected);
    }
}

#[test]
fn every_image_is_shown_once_and_accepted() {
    let (tree, mut cfg) = setup();
    let up = tree.drain(&cfg);
    for rel in &up {
        assert_eq!(
            tree.validate(&cfg, rel).unwrap(),
            format!("{SOURCE}/{rel}").as_bytes()
        );
    }
    assert!(up.windows(2).all(|w| w[0].as_bytes() < w[1].as_bytes()));
    assert_eq!(up.len(), tree.count(&cfg).unwrap());
    cfg.order = Order::Desc;
    let mut down = tree.drain(&cfg);
    down.reverse();
    assert_eq!(down, up);
}

#[test]
fn full_pages_come_before_the_last() {
    let (mut tree, cfg) = setup();
    for i in 0..6u32 {
        write_keep(&mut tree, &format!("x{i}.png"));
    }
    let first = tree.page(&cfg, KeepSort::Name, false, None, 3).unwrap();
    assert_eq!(rels(&first), ["kept.png", "x0.png", "x1.png"]);
    let second = tree
        .page(&cfg, KeepSort::Name, false, Some((0, "x1.png")), 3)
        .unwrap();
    assert_eq!(rels(&second), ["x2.png", "x3.png", "x4.png"]);
    let third = tree
        .page(&cfg, KeepSort::Name, false, Some((0, "x4.png")), 3)
        .unwrap();
    assert_eq!(rels(&third), ["x5.png"]);
    let none = tree
        .page(&cfg, KeepSort::Name, false, Some((0, "x5.png")), 3)
        .unwrap();
    assert!(none.is_empty());
}

#[test]
fn sample_of_any_size_is_part_of_the_gallery() {
    let (mut tree, cfg) = setup();
    for i in 0..9u32 {
        write_keep(&mut tree, &format!("d{}/x{i}.png", i % 3));
        set_keep_mtime(&mut tree, &format!("d{}/x{i}.png", i % 3), i as u128 + 1);
    }
    let all = tree.page(&cfg, KeepSort::Name, false, None, 1000).unwrap();
    for n in 0..12usize {
        for seed in 0..5u64 {
            let sample = tree.sample(&cfg, n, seed).unwrap();
            assert_eq!(sample.len(), n.min(all.len()));
            assert!(sample.iter().all(|i| all.contains(i)));
            let names: BTreeSet<&str> = rels(&sample).into_iter().collect();
            assert_eq!(names.len(), sample.len());
            assert_eq!(tree.sample(&cfg, n, seed).unwrap(), sample);
        }
    }
}

#[test]
fn faults_are_told_in_the_wording_of_the_system() {
    let fault = || std::io::Error::from_raw_os_error(28);
    let wording = fault().to_string();
    assert_eq!(
        MoveError::Io(fault()).message(),
        format!("move failed: {wording}")
    );
    assert_eq!(
        UndoError::Io(fault()).message(),
        format!("undo failed: {wording}")
    );
    assert_eq!(ApiError::from_io(&fault()).message, wording);
    let moved = ApiError::from_move(MoveError::Io(fault()));
    assert_eq!((moved.status, moved.message), (500, format!("move failed: {wording}")));
    let undone = ApiError::from_undo(UndoError::Io(fault()));
    assert_eq!((undone.status, undone.message), (500, format!("undo failed: {wording}")));
}

#[test]
fn newest_move_is_always_remembered() {
    for depth in 0..3usize {
        let mut stack = UndoStack::new(depth);
        for i in 0..4 {
            stack.push(UndoEntry {
                dst: format!("/x/{i}").into_bytes(),
                original_rel: format!("{i}"),
            });
            assert!(!stack.is_empty());
            assert!(stack.len() <= depth.max(1));
        }
        assert_eq!(undo(b"/s", &mut stack).unwrap().dst(), b"/x/3");
    }
}

#[test]
fn failed_undo_is_told_and_not_counted() {
    let (mut tree, mut state) = state_with_tree();
    request_move(
        &mut tree,
        &mut state,
        "Image_00001_.png",
        Destination::Keep,
        10,
    )
    .unwrap();
    tree.foreign = Some(format!("{SOURCE}/keep"));
    let err = request_undo(&mut tree, &mut state, 10).unwrap_err();
    assert_eq!(err.status, 500);
    assert!(err.message.starts_with("undo failed: "));
    assert_eq!(state.stats_snapshot(10).kept, 1);
    assert!(state.undo.is_empty());
}
