use konserve::archive::{create, Archive, ArchiveEntry, DirEntry, EntryKind, IOError,
    SourceContent};
use konserve::manifest::encode;
use konserve::progress::{ProgressCell, PROGRESS_DONE};
use konserve::restore::{list_entries, restore, RestoreAction};
use konserve::selection::SelectionSet;
use konserve::tree::{build_tree, build_tree_from_paths, collect_paths, FolderTreeNode};

fn sel_of(paths: &[&str]) -> SelectionSet {
    let mut s = SelectionSet::new();
    for p in paths {
        s.add(p.to_string());
    }
    s
}

fn file_entry(path: &str, data: &[u8]) -> ArchiveEntry {
    ArchiveEntry { path: path.to_string(), kind: EntryKind::File, data: data.to_vec() }
}

fn dir_entry(path: &str) -> ArchiveEntry {
    ArchiveEntry { path: path.to_string(), kind: EntryKind::Directory, data: Vec::new() }
}

fn child<'a>(node: &'a FolderTreeNode, name: &str) -> &'a FolderTreeNode {
    for (n, c) in node.children.iter() {
        if n.as_str() == name {
            return c;
        }
    }
    panic!("no child named {}", name);
}

/// The scenario: folder `Projects` (containing `x.txt`) and file `Notes.txt`
/// backed up from `C:\Users\alice`, restored under `C:\Users\bob`.
#[test]
fn scenario_backup_then_restore_elsewhere() {
    // Selection order is sorted: Notes.txt before Projects.
    let sel = sel_of(&["C:\\Users\\alice\\Projects", "C:\\Users\\alice\\Notes.txt"]);
    assert_eq!(sel.get(0).as_str(), "C:\\Users\\alice\\Notes.txt");
    let contents = vec![
        SourceContent::File(b"my notes".to_vec()),
        SourceContent::Directory(vec![DirEntry {
            rel_path: "x.txt".to_string(),
            kind: EntryKind::File,
            data: b"project file".to_vec(),
        }]),
    ];
    let mut progress = ProgressCell::new();
    let archive = create(&sel, &contents, &mut progress).unwrap();
    assert_eq!(progress.get(), PROGRESS_DONE);

    assert_eq!(
        archive.manifest,
        "KONSERVE_FINGERPRINT\nBacked up folders\n\
         Folder 1: C:\\Users\\alice\\Notes.txt\nFolder 2: C:\\Users\\alice\\Projects\n"
    );
    assert_eq!(archive.entries.len(), 2);
    assert_eq!(archive.entries[0].path, "Notes.txt");
    assert_eq!(archive.entries[0].kind, EntryKind::File);
    assert_eq!(archive.entries[1].path, "Projects/x.txt");
    assert_eq!(archive.entries[1].data, b"project file".to_vec());

    let mut rp = ProgressCell::new();
    let actions = restore(&archive, None, "C:\\Users\\bob", &mut rp).unwrap();
    assert_eq!(rp.get(), PROGRESS_DONE);
    assert_eq!(actions.len(), 2);
    match &actions[0] {
        RestoreAction::WriteFile(path, data) => {
            assert_eq!(path.as_str(), "C:\\Users\\bob\\Notes.txt");
            assert_eq!(data, &b"my notes".to_vec());
        },
        _ => panic!("expected a file write"),
    }
    match &actions[1] {
        RestoreAction::WriteFile(path, data) => {
            assert_eq!(path.as_str(), "C:\\Users\\bob\\Projects\\x.txt");
            assert_eq!(data, &b"project file".to_vec());
        },
        _ => panic!("expected a file write"),
    }
}

/// Round trip: restoring under the original home reproduces every selected
/// path with its original bytes.
#[test]
fn round_trip_under_original_home() {
    let sel = sel_of(&["C:\\Users\\alice\\Docs", "C:\\Users\\alice\\Notes.txt"]);
    let contents = vec![
        SourceContent::Directory(vec![
            DirEntry {
                rel_path: "deep".to_string(),
                kind: EntryKind::Directory,
                data: Vec::new(),
            },
            DirEntry {
                rel_path: "deep/a.bin".to_string(),
                kind: EntryKind::File,
                data: vec![1, 2, 3],
            },
        ]),
        SourceContent::File(vec![9, 9]),
    ];
    let mut progress = ProgressCell::new();
    let archive = create(&sel, &contents, &mut progress).unwrap();
    let mut rp = ProgressCell::new();
    let actions = restore(&archive, None, "C:\\Users\\alice", &mut rp).unwrap();
    assert_eq!(actions.len(), 3);
    match &actions[0] {
        RestoreAction::MakeDir(path) => assert_eq!(path.as_str(), "C:\\Users\\alice\\Docs\\deep"),
        _ => panic!("expected a directory"),
    }
    match &actions[1] {
        RestoreAction::WriteFile(path, data) => {
            assert_eq!(path.as_str(), "C:\\Users\\alice\\Docs\\deep/a.bin");
            assert_eq!(data, &vec![1, 2, 3]);
        },
        _ => panic!("expected a file write"),
    }
    match &actions[2] {
        RestoreAction::WriteFile(path, data) => {
            assert_eq!(path.as_str(), "C:\\Users\\alice\\Notes.txt");
            assert_eq!(data, &vec![9, 9]);
        },
        _ => panic!("expected a file write"),
    }
}

#[test]
fn create_refuses_empty_selection() {
    let sel = SelectionSet::new();
    let contents: Vec<SourceContent> = Vec::new();
    let mut progress = ProgressCell::new();
    let r = create(&sel, &contents, &mut progress);
    assert!(matches!(r, Err(IOError::NothingSelected)));
    assert_eq!(progress.get(), 0);
}

#[test]
fn restore_rejects_archive_without_signature() {
    let archive = Archive {
        manifest: "not a fingerprint".to_string(),
        entries: vec![file_entry("x", b"y")],
    };
    let mut progress = ProgressCell::new();
    assert!(restore(&archive, None, "C:\\Users\\bob", &mut progress).is_err());
    assert!(list_entries(&archive).is_err());
    assert_eq!(progress.get(), 0);
}

#[test]
fn restore_skips_entries_without_manifest_key() {
    let sel = sel_of(&["C:\\Users\\alice\\Notes.txt"]);
    let manifest = encode(&sel);
    let archive = Archive {
        manifest,
        entries: vec![file_entry("Unknown.txt", b"stray"), file_entry("Notes.txt", b"kept")],
    };
    let mut progress = ProgressCell::new();
    let actions = restore(&archive, None, "C:\\Users\\alice", &mut progress).unwrap();
    assert_eq!(actions.len(), 1);
    match &actions[0] {
        RestoreAction::WriteFile(path, data) => {
            assert_eq!(path.as_str(), "C:\\Users\\alice\\Notes.txt");
            assert_eq!(data, &b"kept".to_vec());
        },
        _ => panic!("expected a file write"),
    }
}

/// The tree of entries `a/b.txt`, `a/c/d.txt`: `a` holds the file `b.txt`
/// and the directory `c`, which holds the file `d.txt`; everything checked.
#[test]
fn tree_construction_from_entries() {
    let entries = vec![file_entry("a/b.txt", b"1"), file_entry("a/c/d.txt", b"2")];
    let tree = build_tree(&entries);
    assert!(tree.checked);
    assert_eq!(tree.children.len(), 1);
    let a = child(&tree, "a");
    assert!(a.checked);
    assert!(!a.is_file);
    assert_eq!(a.children.len(), 2);
    let b = child(a, "b.txt");
    assert!(b.is_file);
    assert!(b.checked);
    assert!(b.children.is_empty());
    let c = child(a, "c");
    assert!(!c.is_file);
    assert!(c.checked);
    let d = child(c, "d.txt");
    assert!(d.is_file);
    assert!(d.checked);
}

#[test]
fn tree_directory_markers_stay_directories() {
    let entries = vec![dir_entry("a/c"), file_entry("a/c/d.txt", b"2")];
    let tree = build_tree(&entries);
    let a = child(&tree, "a");
    let c = child(a, "c");
    assert!(!c.is_file);
    assert!(child(c, "d.txt").is_file);
}

#[test]
fn tree_from_plain_paths() {
    let paths = vec!["a/b.txt".to_string(), "a/c/d.txt".to_string()];
    let tree = build_tree_from_paths(&paths);
    let a = child(&tree, "a");
    assert!(!a.is_file);
    assert!(child(a, "b.txt").is_file);
    assert!(child(child(a, "c"), "d.txt").is_file);
    assert!(tree.checked && a.checked);
}

#[test]
fn collect_paths_lists_checked_nodes() {
    let entries = vec![file_entry("a/b.txt", b"1"), file_entry("a/c/d.txt", b"2")];
    let tree = build_tree(&entries);
    let got = collect_paths(&tree, "");
    assert_eq!(
        got,
        vec![
            "a".to_string(),
            "a/b.txt".to_string(),
            "a/c".to_string(),
            "a/c/d.txt".to_string(),
        ]
    );
}

/// Selective restore: with only `a/c` checked, `d.txt` is written under the
/// remapped `a/c` and `b.txt` is not written.
#[test]
fn selective_restore_writes_only_checked_subtree() {
    let sel = sel_of(&["C:\\Users\\alice\\a"]);
    let manifest = encode(&sel);
    let archive = Archive {
        manifest,
        entries: vec![
            file_entry("a/b.txt", b"left behind"),
            dir_entry("a/c"),
            file_entry("a/c/d.txt", b"restored"),
        ],
    };
    let mut tree = build_tree(&archive.entries);
    // Uncheck everything, then re-check only `a/c`.
    fn uncheck(n: &mut FolderTreeNode) {
        n.checked = false;
        for (_, c) in n.children.iter_mut() {
            uncheck(c);
        }
    }
    uncheck(&mut tree);
    {
        let a = tree
            .children
            .iter_mut()
            .find(|(n, _)| n.as_str() == "a")
            .map(|(_, c)| c)
            .unwrap();
        let c = a
            .children
            .iter_mut()
            .find(|(n, _)| n.as_str() == "c")
            .map(|(_, c)| c)
            .unwrap();
        c.checked = true;
    }
    let selected = collect_paths(&tree, "");
    assert_eq!(selected, vec!["a/c".to_string()]);

    let mut progress = ProgressCell::new();
    let actions = restore(&archive, Some(&selected), "C:\\Users\\bob", &mut progress).unwrap();
    assert_eq!(actions.len(), 2);
    match &actions[0] {
        RestoreAction::MakeDir(path) => assert_eq!(path.as_str(), "C:\\Users\\bob\\a\\c"),
        _ => panic!("expected a directory"),
    }
    match &actions[1] {
        RestoreAction::WriteFile(path, data) => {
            assert_eq!(path.as_str(), "C:\\Users\\bob\\a\\c/d.txt");
            assert_eq!(data, &b"restored".to_vec());
        },
        _ => panic!("expected a file write"),
    }
    for a in &actions {
        if let RestoreAction::WriteFile(path, _) = a {
            assert!(!path.contains("b.txt"));
        }
    }
}

#[test]
fn list_entries_returns_entries_and_key_map() {
    let sel = sel_of(&["C:\\Users\\alice\\Notes.txt"]);
    let archive = Archive {
        manifest: encode(&sel),
        entries: vec![file_entry("Notes.txt", b"n")],
    };
    let (entries, map) = list_entries(&archive).unwrap();
    assert_eq!(entries.len(), 1);
    assert_eq!(entries[0].path, "Notes.txt");
    assert_eq!(map.get("Notes.txt").unwrap().as_str(), "C:\\Users\\alice\\Notes.txt");
}
