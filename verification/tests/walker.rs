use makemessages::walker::{EntryKind, FileWalker, WalkedEntry};

fn entry(path: &str, kind: EntryKind) -> WalkedEntry {
    WalkedEntry { path: path.to_string(), kind }
}

fn walker(discover: bool, locale_paths: Vec<&str>) -> FileWalker {
    FileWalker::new(
        "/p".to_string(),
        vec!["py".to_string()],
        Vec::new(),
        locale_paths.into_iter().map(String::from).collect(),
        discover,
        false,
    )
}

#[test]
fn per_app_files_go_to_their_app_locale() {
    let w = walker(true, vec!["/p/locale"]);
    let entries = vec![
        entry("/p/core", EntryKind::Dir),
        entry("/p/core/models.py", EntryKind::File),
        entry("/p/appA", EntryKind::Dir),
        entry("/p/appA/locale", EntryKind::Dir),
        entry("/p/appA/locale/en/x.py", EntryKind::File),
        entry("/p/appA/models.py", EntryKind::File),
        entry("/p/locale", EntryKind::Dir),
    ];
    let files = w.assign(&entries);
    let got: Vec<(String, String)> = files
        .into_iter()
        .map(|f| (f.path, f.locale_dir))
        .collect();
    assert_eq!(
        got,
        vec![
            ("/p/appA/models.py".to_string(), "/p/appA/locale".to_string()),
            ("/p/core/models.py".to_string(), "/p/locale".to_string()),
        ]
    );
}

#[test]
fn without_discovery_everything_goes_to_the_first_locale_dir() {
    let w = walker(false, vec!["/p/locale", "/p/extra/locale"]);
    let entries = vec![
        entry("/p/appA/locale", EntryKind::Dir),
        entry("/p/appA/models.py", EntryKind::File),
        entry("/p/link", EntryKind::Other),
    ];
    let files = w.assign(&entries);
    assert_eq!(files.len(), 1);
    assert_eq!(files[0].locale_dir, "/p/locale");
}

#[test]
fn default_locale_dir_is_under_the_root() {
    let w = walker(false, Vec::new());
    let files = w.assign(&vec![entry("/p/a.py", EntryKind::File)]);
    assert_eq!(files[0].locale_dir, "/p/locale");
}

#[test]
fn files_sort_by_components() {
    let w = walker(false, vec!["/p/locale"]);
    let entries = vec![
        entry("/p/a-b.py", EntryKind::File),
        entry("/p/a/b.py", EntryKind::File),
        entry("/p/A.py", EntryKind::File),
    ];
    let paths: Vec<String> = w.assign(&entries).into_iter().map(|f| f.path).collect();
    assert_eq!(paths, vec!["/p/A.py", "/p/a/b.py", "/p/a-b.py"]);
}
