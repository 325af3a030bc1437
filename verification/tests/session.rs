use nexus_viewer::datatype::{TypeDesc, Value};
use nexus_viewer::number::Real;
use nexus_viewer::panels::Body;
use nexus_viewer::path::FilePath;
use nexus_viewer::pv::NodeRead;
use nexus_viewer::session::{Click, CompareMode, PendingStep, Session};
use nexus_viewer::tree::{load, Member, Tree};
use nexus_viewer::view::{dataset_view, file_sections, top_bar, Heading};

fn numeric(v: &[f64]) -> Value {
    let data = v.iter().map(|x| Real { bits: x.to_bits() }).collect();
    Value::Numeric { data, shape: vec![v.len()] }
}

fn read(v: &[f64]) -> NodeRead {
    NodeRead {
        attrs: Vec::new(),
        value: Some(numeric(v)),
        time: None,
        mean: Real { bits: 0 },
    }
}

/// Nodes: 0 root, 1 pv group, 2 its value, 3 speed.
fn tree(path: &str) -> Tree {
    load(
        FilePath::from_text(path),
        &vec![
            Member::Group(
                "PV".to_string(),
                vec![Member::Dataset("value".to_string(), vec![2], Some(TypeDesc::Boolean))],
            ),
            Member::Dataset("Speed".to_string(), vec![2], Some(TypeDesc::Boolean)),
        ],
    )
}

fn open(s: &mut Session, path: &str, add: bool) -> bool {
    s.open_file_inner(FilePath::from_text(path), add, Ok(tree(path)))
}

fn session(paths: &[&str]) -> Session {
    let mut s = Session::new();
    for p in paths {
        assert!(open(&mut s, p, true));
    }
    s
}

fn shown(s: &Session) -> Vec<&str> {
    s.files.iter().map(|f| f.tree.file_path.text.as_str()).collect()
}

#[test]
fn a_new_session_is_empty() {
    let s = Session::new();
    assert!(s.files.is_empty() && s.pending.is_empty() && s.selected.is_none());
    assert_eq!(s.compare_mode, CompareMode::Xy);
    assert_eq!(s.title(), "NeXus Viewer");
    assert!(!s.filter_active());
    assert!(dataset_view(&s).is_none());
    assert!(matches!(top_bar(&s).heading, Heading::Nothing));
}

#[test]
fn files_are_added_once_or_replaced() {
    let mut s = session(&["/d/a.h5", "/d/b.h5"]);
    assert_eq!(s.generation, 2);
    let a = FilePath::from_text("/d/a.h5");
    assert!(s.already_open(&a, true));
    assert!(!s.already_open(&a, false));
    assert!(!open(&mut s, "/d//a.h5", true));
    assert_eq!(shown(&s), ["/d/a.h5", "/d/b.h5"]);
    s.select(1, 3, read(&[1.0, 2.0]));
    assert!(open(&mut s, "/d/b.h5", false));
    assert_eq!(shown(&s), ["/d/b.h5"]);
    assert!(s.selected.is_none() && s.loaded.is_none() && s.multi.is_empty());
    assert_eq!(s.title(), "NeXus Viewer — b.h5");
}

#[test]
fn a_file_that_cannot_be_read_changes_nothing_else() {
    let mut s = session(&["/d/a.h5"]);
    s.select(0, 2, read(&[1.0]));
    let failed = s.open_file_inner(
        FilePath::from_text("/d/x"),
        false,
        Err("cannot open /d/x as HDF5: no".to_string()),
    );
    assert!(!failed);
    assert_eq!(s.error, Some("cannot open /d/x as HDF5: no".to_string()));
    assert_eq!(shown(&s), ["/d/a.h5"]);
    assert_eq!(s.selected, Some((0, 2)));
    assert!(open(&mut s, "/d/b.h5", true));
    assert_eq!(s.error, None);
}

#[test]
fn queued_files_are_opened_in_order() {
    let mut s = session(&["/d/a.h5"]);
    assert_eq!(s.enqueue_opens(Vec::new(), false), None);
    assert_eq!(s.files.len(), 1);
    let paths = vec!["/d/b.h5".to_string(), "/d/c.h5".to_string()];
    assert_eq!(s.enqueue_opens(paths, true), Some("/d/b.h5".to_string()));
    assert_eq!((s.files.len(), s.pending_total), (1, 2));
    assert_eq!(top_bar(&s).progress, Some("opening 0/2…".to_string()));
    match s.process_pending(false, 0) {
        PendingStep::Open(p) => assert!(open(&mut s, &p, true)),
        other => panic!("{other:?}"),
    }
    assert_eq!(top_bar(&s).progress, Some("opening 1/2…".to_string()));
    assert!(matches!(s.process_pending(true, 101), PendingStep::Pause));
    match s.process_pending(true, 100) {
        PendingStep::Open(p) => assert!(open(&mut s, &p, true)),
        other => panic!("{other:?}"),
    }
    assert!(matches!(s.process_pending(true, 500), PendingStep::Done));
    assert!(matches!(s.process_pending(false, 0), PendingStep::Idle));
    assert_eq!(shown(&s), ["/d/a.h5", "/d/b.h5", "/d/c.h5"]);
    assert_eq!((s.pending_total, top_bar(&s).progress), (0, None));
}

#[test]
fn a_new_queue_replaces_the_files_and_can_be_cancelled() {
    let mut s = session(&["/d/a.h5", "/d/b.h5"]);
    s.select(0, 2, read(&[1.0]));
    s.enqueue_opens(vec!["/d/c.h5".to_string()], false);
    assert!(s.files.is_empty() && s.selected.is_none());
    s.enqueue_opens(vec!["/d/d.h5".to_string()], true);
    assert_eq!(s.pending_total, 2);
    s.cancel_pending();
    assert_eq!((s.pending.len(), s.pending_total), (0, 0));
    assert!(open(&mut s, "/d/e.h5", true));
    s.enqueue_opens(vec!["/d/f.h5".to_string()], true);
    s.close_all();
    assert!(s.files.is_empty() && s.pending.is_empty());
}

#[test]
fn closing_a_file_keeps_selections_in_the_others() {
    let mut s = session(&["/d/a.h5", "/d/b.h5", "/d/c.h5"]);
    s.select(2, 3, read(&[1.0, 2.0]));
    s.select_second(0, 2, Some(read(&[1.0, 2.0])));
    s.close_file(1);
    assert_eq!(shown(&s), ["/d/a.h5", "/d/c.h5"]);
    assert_eq!((s.selected, s.second), (Some((1, 3)), Some((0, 2))));
    assert_eq!(s.loaded.as_ref().unwrap().sel(), (1, 3));
    s.close_file(0);
    assert_eq!((s.selected, s.second), (Some((0, 3)), None));
    assert!(s.loaded2.is_none());
    s.close_file(0);
    assert!(s.selected.is_none() && s.loaded.is_none());
}

#[test]
fn search_covers_all_files() {
    let mut s = session(&["/d/a.h5", "/d/b.h5"]);
    s.search = "SPEED".to_string();
    s.update_filter();
    assert_eq!(s.total_matches, 2);
    assert_eq!(s.files[1].matches.match_count, 1);
    assert_eq!(top_bar(&s).matches, Some("2 match(es)".to_string()));
    s.case_sensitive = true;
    s.update_filter();
    assert_eq!(s.total_matches, 0);
    assert!(top_bar(&s).no_match && file_sections(&s)[0].no_match);
    s.search = "e".to_string();
    s.update_filter();
    assert_eq!(s.total_matches, 4);
    assert!(open(&mut s, "/d/c.h5", true));
    s.update_filter();
    assert_eq!(s.total_matches, 6);
    s.search.clear();
    s.update_filter();
    assert_eq!((s.total_matches, top_bar(&s).matches), (0, None));
}

#[test]
fn clicks_select_datasets() {
    let mut s = session(&["/d/a.h5"]);
    assert_eq!(s.click(0, 1, false), Some(Click::Select(2)));
    assert_eq!(s.click(0, 3, true), Some(Click::SelectSecond(3)));
    assert_eq!(s.click(0, 0, false), None);
    s.select(0, 2, read(&[1.0]));
    assert_eq!(s.click(0, 1, false), None);
    assert_eq!(s.click(0, 1, true), Some(Click::SelectSecond(2)));
}

#[test]
fn picking_the_second_twice_drops_it() {
    let mut s = session(&["/d/a.h5"]);
    s.select_second(0, 3, Some(read(&[1.0])));
    assert_eq!(s.second, Some((0, 3)));
    s.select_second(0, 2, Some(read(&[1.0])));
    assert_eq!(s.second, Some((0, 2)));
    s.select_second(0, 2, None);
    assert!(s.second.is_none() && s.loaded2.is_none());
    s.select_second(0, 3, Some(read(&[1.0])));
    s.clear_second();
    assert!(s.second.is_none() && s.loaded2.is_none());
}

#[test]
fn a_selection_is_shown_across_files() {
    let mut s = session(&["/d/a.h5"]);
    s.select(0, 2, read(&[1.0, 2.0]));
    assert!(s.multi_plan().is_empty());
    let other = load(
        FilePath::from_text("/d/b.h5"),
        &vec![Member::Group(
            "PV".to_string(),
            vec![
                Member::Dataset("average".to_string(), vec![], None),
                Member::Dataset("value".to_string(), vec![2], None),
            ],
        )],
    );
    assert!(s.open_file_inner(FilePath::from_text("/d/b.h5"), true, Ok(other)));
    let clash = load(
        FilePath::from_text("/d/c.h5"),
        &vec![Member::Group("PV".to_string(), vec![Member::Group("value".to_string(), vec![])])],
    );
    assert!(s.open_file_inner(FilePath::from_text("/d/c.h5"), true, Ok(clash)));
    assert_eq!(s.multi_plan(), [Some(2), Some(3), None]);
    s.rebuild_multi(vec![Some(read(&[1.0, 2.0])), Some(read(&[5.0])), None]);
    assert_eq!(s.multi.len(), 3);
    assert_eq!(s.multi[1].as_ref().unwrap().sel(), (1, 3));
    assert!(s.multi[2].is_none());
    let view = dataset_view(&s).unwrap();
    assert_eq!(view.content.body, Body::AcrossFiles);
    assert_eq!((view.first.mark, view.first.path.as_str()), (None, "/PV/value"));
}

#[test]
fn pairings_follow_the_selection() {
    let mut s = session(&["/d/a.h5", "/d/b.h5"]);
    s.ensure_xy_cache();
    assert!(s.xy_cache.is_none());
    s.select(0, 2, read(&[1.0, 2.0]));
    s.select_second(1, 3, Some(read(&[3.0, 4.0])));
    assert!(s.pairable_selection());
    s.ensure_xy_cache();
    assert_eq!(s.xy_cache.as_ref().unwrap().key, ((0, 2), (1, 3), false));
    s.swap_xy = true;
    s.ensure_xy_cache();
    assert_eq!(s.xy_cache.as_ref().unwrap().key, ((0, 2), (1, 3), true));
    let view = dataset_view(&s).unwrap();
    assert_eq!(view.content.body, Body::Compare);
    assert_eq!(view.first.file, Some("a".to_string()));
    assert_eq!(view.second.unwrap().mark, Some("[2]".to_string()));
    s.select(0, 3, read(&[1.0]));
    assert!(s.xy_cache.is_none());
    s.ensure_xy_cache();
    assert!(s.xy_cache.is_none());
    assert!(dataset_view(&s).unwrap().content.warn_second);
}

#[test]
fn open_files_head_the_panels() {
    let s = session(&["/SNS/X/IPTS-1/nexus/a_1.nxs.h5"]);
    match top_bar(&s).heading {
        Heading::OneFile(text) => {
            assert_eq!(text, "/SNS/X/IPTS-1/nexus/a_1.nxs.h5   (1 groups, 2 datasets)")
        }
        other => panic!("{other:?}"),
    }
    let section = &file_sections(&s)[0];
    assert_eq!((section.number.as_deref(), section.label.as_str()), (None, "a_1"));
    assert_eq!(s.instrument_root(&vec![]).to_text(), "/SNS/X");
    assert_eq!(s.default_dir(&vec![]).unwrap().to_text(), "/SNS/X/IPTS-1/nexus");
    assert_eq!(Session::new().instrument_root(&vec![]).to_text(), "/SNS/VENUS");
    let s = session(&["./x//a.h5"]);
    assert!(matches!(top_bar(&s).heading, Heading::OneFile(t) if t.starts_with("./x//a.h5   (")));
    assert_eq!(s.default_dir(&vec![]).unwrap().to_text(), "./x");
    let s = session(&["/a", "/b", "/c", "/d", "/e"]);
    match top_bar(&s).heading {
        Heading::ManyFiles { text, list } => {
            assert_eq!((text.as_str(), list.as_str()), ("5 files open", "/a\n/b\n/c\n/d\n/e"))
        }
        other => panic!("{other:?}"),
    }
    let sections = file_sections(&s);
    assert_eq!(sections[4].number, Some("[5]".to_string()));
    assert!(!sections[0].default_open && file_sections(&session(&["/a"]))[0].default_open);
    assert_eq!(s.file_labels(), ["a", "b", "c", "d", "e"]);
    assert_eq!(s.title(), "NeXus Viewer — 5 files");
}
