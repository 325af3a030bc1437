use nexus_viewer::path::FilePath;
use nexus_viewer::run_files::{build_run_index, RunDir, RunIndex};
use nexus_viewer::run_search::{
    expand_home, typed_path, PathKind, PathPopup, RunAction, RunSearch, RunStatus, TypedPath,
};

fn root() -> FilePath {
    FilePath::from_text("/SNS/VENUS")
}

fn index() -> RunIndex {
    let dirs = vec![
        RunDir {
            name: "IPTS-1".to_string(),
            files: vec!["V_1.nxs.h5".to_string(), "V_2.nxs.h5".to_string()],
        },
        RunDir { name: "IPTS-2".to_string(), files: vec!["V_3.nxs.h5".to_string()] },
    ];
    build_run_index(&root(), &dirs)
}

fn typed(dir: &str, input: &str) -> RunSearch {
    let mut s = RunSearch::new();
    s.dir = dir.to_string();
    s.input = input.to_string();
    s
}

fn found(s: &RunSearch) -> (String, Option<String>, bool) {
    match s.status() {
        RunStatus::Found { text, note, rescan } => (text, note, rescan),
        other => panic!("{other:?}"),
    }
}

#[test]
fn home_is_put_in_place() {
    let home = Some("/home/me".to_string());
    assert_eq!(expand_home("~/x".to_string(), &home), "/home/me/x");
    assert_eq!(expand_home("~".to_string(), &home), "~");
    assert_eq!(expand_home("~/x".to_string(), &None), "~/x");
    assert_eq!(expand_home("/a/~/x".to_string(), &home), "/a/~/x");
    assert_eq!(typed_path("  ~/x \n", &home), Some("/home/me/x".to_string()));
    assert_eq!(typed_path("   ", &home), None);
}

#[test]
fn typed_paths_are_opened_browsed_or_missed() {
    let mut p = PathPopup { open: false, input: String::new(), focus: false, error: None };
    p.show(Some("/d".to_string()));
    assert!(p.open && p.focus);
    assert_eq!(p.input, "/d");
    assert_eq!(p.open_typed_path("/nowhere", PathKind::Missing), TypedPath::NotFound);
    assert_eq!(p.error, Some("Not found: /nowhere".to_string()));
    assert!(p.open);
    assert_eq!(p.open_typed_path("/d/a.h5", PathKind::File), TypedPath::Open);
    assert!(!p.open && p.error.is_none());
    p.show(Some("/e".to_string()));
    assert_eq!(p.input, "/d");
    assert_eq!(p.open_typed_path("/d", PathKind::Dir), TypedPath::Browse);
    assert!(!p.open);
    p.show(None);
    p.close();
    assert!(!p.open);
}

#[test]
fn nothing_typed_finds_nothing() {
    let mut s = typed("", "  ");
    assert!(matches!(s.update_range_matches(root(), &None), RunAction::Nothing));
    assert_eq!(found(&s), ("no matching file".to_string(), None, false));
    let mut s = typed("/d", "abc");
    assert!(matches!(s.update_range_matches(root(), &None), RunAction::Nothing));
    assert!(matches!(s.status(), RunStatus::Error(e) if e == "cannot parse the run list"));
}

#[test]
fn a_directory_is_listed() {
    let mut s = typed(" ~/runs ", "7-9");
    let home = Some("/home/me".to_string());
    match s.update_range_matches(root(), &home) {
        RunAction::List(d) => assert_eq!(d, "/home/me/runs"),
        other => panic!("{other:?}"),
    }
    let names = vec!["V_9.h5".to_string(), "V_8.h5".to_string(), "V_6.h5".to_string()];
    s.take_listing("/home/me/runs", Some(names));
    assert_eq!(found(&s).0, "2 files: V_8.h5 … V_9.h5");
    assert_eq!(s.matches[0].to_text(), "/home/me/runs/V_8.h5");
    s.take_listing("/home//me/", Some(vec!["V_7.h5".to_string()]));
    assert_eq!(s.matches[0].to_text(), "/home//me/V_7.h5");
    assert!(matches!(s.update_range_matches(root(), &home), RunAction::Nothing));
    s.input = "6".to_string();
    assert!(matches!(s.update_range_matches(root(), &home), RunAction::List(_)));
    s.take_listing("/home/me/runs", None);
    assert!(matches!(s.status(), RunStatus::Error(e) if e == "not a directory: /home/me/runs"));
}

#[test]
fn runs_are_located_across_experiments() {
    let mut s = typed("", "2-4");
    match s.update_range_matches(root(), &None) {
        RunAction::Scan(d) => assert!(d.same_as(&root())),
        other => panic!("{other:?}"),
    }
    assert!(matches!(s.status(), RunStatus::Scanning));
    assert!(matches!(s.update_range_matches(root(), &None), RunAction::Nothing));
    s.take_index(index());
    assert!(matches!(s.update_range_matches(root(), &None), RunAction::Nothing));
    assert_eq!(
        found(&s),
        (
            "2 files: V_2.nxs.h5 … V_3.nxs.h5".to_string(),
            Some("(from 2 IPTS; 1 of the 3 runs not found)".to_string()),
            true
        )
    );
    // The index of another instrument does not do.
    s.input = "3".to_string();
    assert!(matches!(
        s.update_range_matches(FilePath::from_text("/SNS/SNAP"), &None),
        RunAction::Scan(_)
    ));
    s.take_index(index());
    s.rescan();
    assert!(matches!(s.update_range_matches(root(), &None), RunAction::Scan(_)));
}

#[test]
fn every_run_there_is_cannot_be_counted() {
    let countable = |dir: &str, input: &str| {
        let mut s = typed(dir, input);
        s.take_index(index());
        s.countable(&root())
    };
    assert!(!countable("", "0-18446744073709551615"));
    assert!(countable("/d", "0-18446744073709551615"));
    assert!(countable("", "1-18446744073709551615"));
    assert!(countable("", "x"));
    assert!(typed("", "0-18446744073709551615").countable(&root()));
}
